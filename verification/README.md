# thirdpass-ansible

Dependency discovery for Ansible Galaxy collections, verified with Verus.

Starting from one release of a collection, the library selects for every
declared dependency the newest Galaxy version that satisfies the requirement,
and walks on from there. Each dependency edge is resolved by itself: where two
branches require different versions of a collection, both are found. The
metadata of a release and the versions of a collection are asked for at most
once per run. Galaxy versions that cannot be read as semantic versions are
skipped.

## Layout

- `src/text.rs`, `src/lexical.rs`: texts, and their order.
- `src/semantic.rs`: versions and requirements as the `semver` crate reads
  them. Everything that is trusted without proof stands here.
- `src/version.rs`: normalizing, parsing and selecting versions.
- `src/package.rs`, `src/metadata.rs`, `src/failure.rs`: releases, collection
  metadata, errors.
- `src/closure.rs`: the walk over all that a release requires. It asks for what
  it needs to know and goes on when it is answered.
- `src/cache.rs`, `src/resolver.rs`: the identification of dependencies, as it
  asks a source, and with a cache around the source that keeps every answer.
- `src/laws.rs`: what holds of a whole run, whatever the source's error type. It
  finds exactly the releases that a chain of dependencies leads to, and goes on
  forever only where these have no end; with the cache it ends in the same way
  and asks nothing twice.
- `app/`: the Galaxy source, JSON values and the Thirdpass types.
