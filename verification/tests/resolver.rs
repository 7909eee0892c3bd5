use std::cell::RefCell;
use std::collections::BTreeMap;

use thirdpass_ansible::cache::CachedGalaxySource;
use thirdpass_ansible::closure::{resolve_dependency_closure, ClosureStep};
use thirdpass_ansible::failure::ResolveError;
use thirdpass_ansible::metadata::{dependency_requirements, JsonValue, MetadataError};
use thirdpass_ansible::package::{
    Dependency, DependencyRequirement, PackageDependencies, PackageKey,
};
use thirdpass_ansible::resolver::{
    identify_package_dependencies, identify_package_dependencies_with_source, latest_version,
    CachedStep, IdentifyStep,
};
use thirdpass_ansible::version::VersionError;

#[derive(Default)]
struct FakeGalaxySource {
    entries: BTreeMap<(String, String), BTreeMap<String, String>>,
    versions: BTreeMap<String, Vec<String>>,
    entry_calls: RefCell<BTreeMap<(String, String), usize>>,
    version_calls: RefCell<BTreeMap<String, usize>>,
}

fn key(package_name: &str, package_version: &str) -> (String, String) {
    (package_name.to_string(), package_version.to_string())
}

impl FakeGalaxySource {
    fn add_package(
        &mut self,
        package_name: &str,
        package_version: &str,
        dependencies: &[(&str, &str)],
    ) {
        self.entries.insert(
            key(package_name, package_version),
            dependencies
                .iter()
                .map(|(name, requirement)| (name.to_string(), requirement.to_string()))
                .collect(),
        );
        self.versions
            .entry(package_name.to_string())
            .or_default()
            .push(package_version.to_string());
    }

    fn entry_call_count(&self, package_name: &str, package_version: &str) -> usize {
        self.entry_calls
            .borrow()
            .get(&key(package_name, package_version))
            .copied()
            .unwrap_or(0)
    }

    fn version_call_count(&self, package_name: &str) -> usize {
        self.version_calls
            .borrow()
            .get(package_name)
            .copied()
            .unwrap_or(0)
    }

    fn package_entry(&self, package: &PackageKey) -> Result<JsonValue, String> {
        let key = key(&package.name, &package.version);
        *self
            .entry_calls
            .borrow_mut()
            .entry(key.clone())
            .or_default() += 1;
        match self.entries.get(&key) {
            Some(dependencies) => Ok(collection_entry(dependencies)),
            None => Err(format!(
                "missing fake package {}@{}",
                package.name, package.version
            )),
        }
    }

    fn package_versions(&self, package_name: &str) -> Result<Vec<String>, String> {
        *self
            .version_calls
            .borrow_mut()
            .entry(package_name.to_string())
            .or_default() += 1;
        match self.versions.get(package_name) {
            Some(versions) => Ok(versions.clone()),
            None => Err(format!("missing fake versions for {}", package_name)),
        }
    }
}

fn text(text: &str) -> JsonValue {
    JsonValue::Text(text.to_string())
}

fn object(members: Vec<(&str, JsonValue)>) -> JsonValue {
    JsonValue::Object(
        members
            .into_iter()
            .map(|(name, value)| (name.to_string(), value))
            .collect(),
    )
}

fn collection_entry(dependencies: &BTreeMap<String, String>) -> JsonValue {
    let dependencies = dependencies
        .iter()
        .map(|(name, requirement)| (name.as_str(), text(requirement)))
        .collect();
    object(vec![(
        "metadata",
        object(vec![("dependencies", object(dependencies))]),
    )])
}

fn identify(
    source: &FakeGalaxySource,
    package_name: &str,
    package_version: &Option<&str>,
) -> Result<PackageDependencies, ResolveError<String>> {
    let mut step = identify_package_dependencies_with_source(package_name, package_version);
    loop {
        step = match step {
            IdentifyStep::Entry(pending) => match source.package_entry(pending.package()) {
                Ok(entry) => pending.answer(Ok(&entry)),
                Err(error) => pending.answer(Err(error)),
            },
            IdentifyStep::Versions(pending) => {
                match source.package_versions(pending.package_name()) {
                    Ok(versions) => pending.answer(Ok(&versions)),
                    Err(error) => pending.answer(Err(error)),
                }
            }
            IdentifyStep::Finished(result) => return result,
        };
    }
}

fn identify_cached(
    source: &FakeGalaxySource,
    package_name: &str,
    package_version: &Option<&str>,
) -> Result<PackageDependencies, ResolveError<String>> {
    let mut step = identify_package_dependencies(package_name, package_version);
    loop {
        step = match step {
            CachedStep::Entry(waiting) => {
                let reply = source.package_entry(waiting.package());
                waiting.answer(reply)
            }
            CachedStep::Versions(waiting) => {
                let reply = source.package_versions(waiting.package_name());
                waiting.answer(reply)
            }
            CachedStep::Finished(result) => return result,
        };
    }
}

fn walk(
    source: &FakeGalaxySource,
    package_name: &str,
    package_version: &str,
) -> Result<Vec<Dependency>, ResolveError<String>> {
    let mut step = resolve_dependency_closure(package_name, package_version);
    loop {
        step = match step {
            ClosureStep::Entry(request) => match source.package_entry(request.package()) {
                Ok(entry) => request.answer(Ok(&entry)),
                Err(error) => request.answer(Err(error)),
            },
            ClosureStep::Versions(request) => {
                match source.package_versions(request.package_name()) {
                    Ok(versions) => request.answer(Ok(&versions)),
                    Err(error) => request.answer(Err(error)),
                }
            }
            ClosureStep::Finished(result) => return result,
        };
    }
}

fn assert_dependency(dependencies: &[Dependency], name: &str, version: &str) {
    assert!(
        dependencies
            .iter()
            .any(|dependency| dependency.name == name && dependency.version == version),
        "expected dependency {}@{} in {:?}",
        name,
        version,
        dependencies
    );
}

fn listed(dependencies: &[Dependency]) -> Vec<(&str, &str)> {
    dependencies
        .iter()
        .map(|dependency| (dependency.name.as_str(), dependency.version.as_str()))
        .collect()
}

#[test]
fn package_dependencies_resolve_transitive_closure() -> Result<(), ResolveError<String>> {
    let mut source = FakeGalaxySource::default();
    source.add_package(
        "example.root",
        "1.0.0",
        &[
            ("example.one", ">=1.0.0,<2.0.0"),
            ("example.two", ">=2.0.0"),
        ],
    );
    source.add_package("example.one", "1.0.0", &[]);
    source.add_package("example.one", "1.2.0", &[("example.three", "==3.1")]);
    source.add_package("example.one", "2.0.0", &[]);
    source.add_package("example.two", "2.0.0", &[]);
    source.add_package("example.three", "3.1.0", &[]);

    let dependencies = identify(&source, "example.root", &Some("1.0.0"))?;

    assert_eq!(dependencies.package_version, "1.0.0".to_string());
    assert_eq!(dependencies.registry_host_name, "galaxy.ansible.com");
    assert_dependency(&dependencies.dependencies, "example.one", "1.2.0");
    assert_dependency(&dependencies.dependencies, "example.two", "2.0.0");
    assert_dependency(&dependencies.dependencies, "example.three", "3.1.0");
    assert_eq!(dependencies.dependencies.len(), 3);
    Ok(())
}

#[test]
fn package_dependencies_resolve_missing_target_version() -> Result<(), ResolveError<String>> {
    let mut source = FakeGalaxySource::default();
    source.add_package("example.root", "1.0.0", &[]);
    source.add_package("example.root", "1.2.0", &[]);

    let dependencies = identify(&source, "example.root", &None)?;

    assert_eq!(dependencies.package_version, "1.2.0".to_string());
    assert!(dependencies.dependencies.is_empty());
    Ok(())
}

#[test]
fn package_dependencies_skip_cycle_to_root() -> Result<(), ResolveError<String>> {
    let mut source = FakeGalaxySource::default();
    source.add_package("example.root", "1.0.0", &[("example.one", ">=1.0.0")]);
    source.add_package("example.one", "1.0.0", &[("example.root", ">=1.0.0")]);

    let dependencies = identify(&source, "example.root", &Some("1.0.0"))?;

    assert_dependency(&dependencies.dependencies, "example.one", "1.0.0");
    assert!(dependencies
        .dependencies
        .iter()
        .all(|dependency| dependency.name != "example.root"));
    Ok(())
}

#[test]
fn package_dependencies_report_unsatisfied_requirement() {
    let mut source = FakeGalaxySource::default();
    source.add_package("example.root", "1.0.0", &[("example.one", ">=2.0.0")]);
    source.add_package("example.one", "1.0.0", &[]);

    let error = identify(&source, "example.root", &Some("1.0.0"))
        .expect_err("expected requirement resolution to fail");

    assert!(error
        .message()
        .expect("a failure of the resolution itself")
        .contains("Failed to resolve dependency example.one with requirement >=2.0.0."));
}

#[test]
fn package_dependencies_use_cached_galaxy_data() -> Result<(), ResolveError<String>> {
    let mut source = FakeGalaxySource::default();
    source.add_package(
        "example.root",
        "1.0.0",
        &[("example.left", ">=1.0.0"), ("example.right", ">=1.0.0")],
    );
    source.add_package("example.left", "1.0.0", &[("example.shared", ">=1.0.0")]);
    source.add_package("example.right", "1.0.0", &[("example.shared", ">=1.0.0")]);
    source.add_package("example.shared", "1.0.0", &[]);

    let dependencies = identify_cached(&source, "example.root", &Some("1.0.0"))?;

    assert_dependency(&dependencies.dependencies, "example.shared", "1.0.0");
    assert_eq!(source.version_call_count("example.shared"), 1);
    assert_eq!(source.entry_call_count("example.shared", "1.0.0"), 1);
    Ok(())
}

#[test]
fn dependency_requirements_parse_real_galaxy_metadata_example() -> Result<(), MetadataError> {
    let entry = object(vec![
        ("version", text("5.0.0")),
        (
            "metadata",
            object(vec![(
                "dependencies",
                object(vec![("ansible.utils", text(">=2.7.0"))]),
            )]),
        ),
    ]);

    let requirements = dependency_requirements(&entry)?;

    assert_eq!(
        requirements,
        vec![DependencyRequirement {
            name: "ansible.utils".to_string(),
            requirement: ">=2.7.0".to_string()
        }]
    );
    Ok(())
}

#[test]
fn missing_dependencies_are_none() -> Result<(), MetadataError> {
    let entries = vec![
        JsonValue::Null,
        JsonValue::Other,
        text("metadata"),
        object(vec![]),
        object(vec![("dependencies", object(vec![("a.b", text("*"))]))]),
        object(vec![("metadata", JsonValue::Null)]),
        object(vec![("metadata", JsonValue::Other)]),
        object(vec![("metadata", object(vec![]))]),
        object(vec![(
            "metadata",
            object(vec![("dependencies", JsonValue::Null)]),
        )]),
        object(vec![(
            "metadata",
            object(vec![("dependencies", object(vec![]))]),
        )]),
    ];
    for entry in &entries {
        assert_eq!(dependency_requirements(entry)?, vec![]);
    }
    Ok(())
}

#[test]
fn requirements_keep_the_order_of_the_section() -> Result<(), MetadataError> {
    let entry = object(vec![(
        "metadata",
        object(vec![(
            "dependencies",
            object(vec![("b.b", text("1")), ("a.a", text("2"))]),
        )]),
    )]);
    let names: Vec<String> = dependency_requirements(&entry)?
        .into_iter()
        .map(|requirement| requirement.name)
        .collect();
    assert_eq!(names, vec!["b.b", "a.a"]);
    Ok(())
}

#[test]
fn malformed_metadata_are_reported() {
    for section in [text("a.b"), JsonValue::Other] {
        let entry = object(vec![(
            "metadata",
            object(vec![("dependencies", section)]),
        )]);
        let error = dependency_requirements(&entry).expect_err("no object");
        assert_eq!(error, MetadataError::DependenciesNotObject);
        assert_eq!(
            error.message(),
            "Failed to parse collection dependencies section as object."
        );
    }
    for requirement in [JsonValue::Null, JsonValue::Other, object(vec![])] {
        let entry = object(vec![(
            "metadata",
            object(vec![(
                "dependencies",
                object(vec![("a.a", text("*")), ("b.b", requirement)]),
            )]),
        )]);
        let error = dependency_requirements(&entry).expect_err("no string");
        assert_eq!(error, MetadataError::RequirementNotString);
        assert_eq!(
            error.message(),
            "Failed to parse collection dependency requirement as string."
        );
    }
}

#[test]
fn members_are_found_by_name() {
    let value = object(vec![
        ("a", text("1")),
        ("b", text("2")),
        ("b", text("3")),
        ("n", JsonValue::Null),
    ]);
    assert!(matches!(value.member("b"), Some(JsonValue::Text(t)) if t == "2"));
    assert!(matches!(value.member("n"), Some(JsonValue::Null)));
    assert!(value.member("c").is_none());
    assert!(text("a").member("a").is_none());
}

#[test]
fn dependencies_come_once_and_in_order() -> Result<(), ResolveError<String>> {
    let mut source = FakeGalaxySource::default();
    source.add_package("z.root", "1.0.0", &[("b.b", "*"), ("c.c", "*"), ("a.a", "*")]);
    source.add_package("a.a", "1.0.0", &[("c.c", "<2"), ("b.b", "*")]);
    source.add_package("b.b", "1.0.0", &[("a.a", "*")]);
    source.add_package("c.c", "1.10.0", &[]);
    source.add_package("c.c", "1.9.0", &[]);
    source.add_package("c.c", "2.0.0", &[]);

    let dependencies = identify(&source, "z.root", &None)?.dependencies;

    assert_eq!(
        listed(&dependencies),
        vec![
            ("a.a", "1.0.0"),
            ("b.b", "1.0.0"),
            ("c.c", "1.10.0"),
            ("c.c", "2.0.0")
        ]
    );
    Ok(())
}

#[test]
fn names_are_ordered_before_versions() -> Result<(), ResolveError<String>> {
    let mut source = FakeGalaxySource::default();
    source.add_package(
        "root.root",
        "1.0.0",
        &[("a.ab", "==1"), ("a.a", "==9"), ("a.a-", "==2"), ("a.\u{e9}", "==1")],
    );
    source.add_package("a.ab", "1.0.0", &[]);
    source.add_package("a.a", "9.0.0", &[("a.a", "==10")]);
    source.add_package("a.a", "10.0.0", &[]);
    source.add_package("a.a-", "2.0.0", &[]);
    source.add_package("a.\u{e9}", "1.0.0", &[]);

    let dependencies = walk(&source, "root.root", "1.0.0")?;

    let mut sorted = listed(&dependencies);
    sorted.sort();
    assert_eq!(listed(&dependencies), sorted);
    assert_eq!(
        sorted,
        vec![
            ("a.a", "10.0.0"),
            ("a.a", "9.0.0"),
            ("a.a-", "2.0.0"),
            ("a.ab", "1.0.0"),
            ("a.\u{e9}", "1.0.0")
        ]
    );
    Ok(())
}

#[test]
fn incompatible_branches_are_each_resolved() -> Result<(), ResolveError<String>> {
    let mut source = FakeGalaxySource::default();
    source.add_package("r.r", "1.0.0", &[("l.l", "*"), ("s.s", ">=2")]);
    source.add_package("l.l", "1.0.0", &[("s.s", "<2")]);
    source.add_package("s.s", "1.5.0", &[]);
    source.add_package("s.s", "2.5.0", &[]);

    let dependencies = identify_cached(&source, "r.r", &Some("1.0.0"))?.dependencies;

    assert_eq!(
        listed(&dependencies),
        vec![("l.l", "1.0.0"), ("s.s", "1.5.0"), ("s.s", "2.5.0")]
    );
    assert_eq!(source.version_call_count("s.s"), 1);
    Ok(())
}

#[test]
fn another_version_of_the_root_is_a_dependency() -> Result<(), ResolveError<String>> {
    let mut source = FakeGalaxySource::default();
    source.add_package("r.r", "1.0.0", &[("r.r", ">=2")]);
    source.add_package("r.r", "2.0.0", &[("r.r", "*")]);

    let dependencies = identify(&source, "r.r", &Some("1.0.0"))?.dependencies;

    assert_eq!(listed(&dependencies), vec![("r.r", "2.0.0")]);
    Ok(())
}

#[test]
fn cycles_end() -> Result<(), ResolveError<String>> {
    let mut source = FakeGalaxySource::default();
    source.add_package("a.a", "1.0.0", &[("b.b", "*")]);
    source.add_package("b.b", "1.0.0", &[("c.c", "*"), ("b.b", "*")]);
    source.add_package("c.c", "1.0.0", &[("a.a", "*"), ("b.b", "*")]);

    assert_eq!(
        listed(&walk(&source, "a.a", "1.0.0")?),
        vec![("b.b", "1.0.0"), ("c.c", "1.0.0")]
    );
    assert_eq!(
        listed(&identify(&source, "c.c", &Some("1.0.0"))?.dependencies),
        vec![("a.a", "1.0.0"), ("b.b", "1.0.0")]
    );
    Ok(())
}

#[test]
fn an_endless_chain_does_not_hide_what_is_missing() {
    let mut step = resolve_dependency_closure::<String>("r.r", "1.0.0");
    let mut asked = 0;
    let error = loop {
        asked += 1;
        assert!(asked < 100, "the walk goes on");
        step = match step {
            ClosureStep::Entry(request) => {
                let name = request.package().name.clone();
                let required = match name.as_str() {
                    "r.r" => vec!["c".to_string(), "m".to_string()],
                    "m" => vec!["x".to_string()],
                    _ => vec![format!("{}c", name)],
                };
                let declared = required
                    .into_iter()
                    .map(|name| (name, "*".to_string()))
                    .collect();
                request.answer(Ok(&collection_entry(&declared)))
            }
            ClosureStep::Versions(request) => {
                if request.package_name() == "x" {
                    request.answer(Err("no x".to_string()))
                } else {
                    request.answer(Ok(&["1.0.0".to_string()]))
                }
            }
            ClosureStep::Finished(result) => break result.expect_err("x is missing"),
        };
    };
    assert!(matches!(error, ResolveError::Source(message) if message == "no x"));
}

#[test]
fn keeping_answers_changes_only_how_often_is_asked() -> Result<(), ResolveError<String>> {
    let mut source = FakeGalaxySource::default();
    source.add_package("r.r", "1.0.0", &[("a.a", "*"), ("b.b", "*"), ("c.c", "*")]);
    source.add_package("a.a", "1.0.0", &[("c.c", "*"), ("r.r", "*")]);
    source.add_package("b.b", "1.0.0", &[("c.c", "*"), ("a.a", "*")]);
    source.add_package("c.c", "1.0.0", &[("r.r", "*")]);

    let walked = walk(&source, "r.r", "1.0.0")?;
    assert_eq!(source.version_call_count("c.c"), 3);
    assert_eq!(source.version_call_count("r.r"), 2);

    let plain = identify(&source, "r.r", &None)?;
    assert_eq!(plain.dependencies, walked);
    assert_eq!(source.version_call_count("c.c"), 6);
    assert_eq!(source.version_call_count("r.r"), 5);

    let kept = FakeGalaxySource {
        entries: source.entries.clone(),
        versions: source.versions.clone(),
        ..FakeGalaxySource::default()
    };
    let identified = identify_cached(&kept, "r.r", &None)?;
    assert_eq!(identified, plain);
    for name in ["r.r", "a.a", "b.b", "c.c"] {
        assert_eq!(kept.version_call_count(name), 1);
        assert_eq!(kept.entry_call_count(name, "1.0.0"), 1);
    }
    Ok(())
}

/// Answers the questions for the versions of `c.c` with these lists in turn,
/// then fails.
fn listed_in_turn(lists: &[&[&str]], asked: usize) -> Result<Vec<String>, String> {
    match lists.get(asked) {
        Some(list) => Ok(list.iter().map(|version| version.to_string()).collect()),
        None => Err("listed no more".to_string()),
    }
}

fn two_ways_source() -> FakeGalaxySource {
    let mut source = FakeGalaxySource::default();
    source.add_package("r.r", "1.0.0", &[("a.a", "*"), ("c.c", "*")]);
    source.add_package("a.a", "1.0.0", &[("c.c", "*")]);
    source.add_package("c.c", "1.0.0", &[]);
    source.add_package("c.c", "2.0.0", &[]);
    source
}

fn identify_in_turn(lists: &[&[&str]]) -> Result<PackageDependencies, ResolveError<String>> {
    let source = two_ways_source();
    let mut asked = 0;
    let mut step = identify_package_dependencies_with_source("r.r", &Some("1.0.0"));
    loop {
        step = match step {
            IdentifyStep::Entry(pending) => match source.package_entry(pending.package()) {
                Ok(entry) => pending.answer(Ok(&entry)),
                Err(error) => pending.answer(Err(error)),
            },
            IdentifyStep::Versions(pending) => {
                let reply = if pending.package_name() == "c.c" {
                    asked += 1;
                    listed_in_turn(lists, asked - 1)
                } else {
                    source.package_versions(pending.package_name())
                };
                match reply {
                    Ok(versions) => pending.answer(Ok(&versions)),
                    Err(error) => pending.answer(Err(error)),
                }
            }
            IdentifyStep::Finished(result) => return result,
        };
    }
}

fn identify_cached_in_turn(lists: &[&[&str]]) -> Result<PackageDependencies, ResolveError<String>> {
    let source = two_ways_source();
    let mut asked = 0;
    let mut step = identify_package_dependencies("r.r", &Some("1.0.0"));
    loop {
        step = match step {
            CachedStep::Entry(waiting) => {
                let reply = source.package_entry(waiting.package());
                waiting.answer(reply)
            }
            CachedStep::Versions(waiting) => {
                let reply = if waiting.package_name() == "c.c" {
                    asked += 1;
                    listed_in_turn(lists, asked - 1)
                } else {
                    source.package_versions(waiting.package_name())
                };
                waiting.answer(reply)
            }
            CachedStep::Finished(result) => return result,
        };
    }
}

#[test]
fn without_a_cache_every_answer_counts() -> Result<(), ResolveError<String>> {
    let dependencies = identify_in_turn(&[&["1.0.0"], &["2.0.0"]])?.dependencies;
    assert_eq!(
        listed(&dependencies),
        vec![("a.a", "1.0.0"), ("c.c", "1.0.0"), ("c.c", "2.0.0")]
    );
    let error = identify_in_turn(&[&["1.0.0"]]).expect_err("asked a second time");
    assert!(matches!(error, ResolveError::Source(message) if message == "listed no more"));
    Ok(())
}

#[test]
fn with_a_cache_the_first_answer_stays() -> Result<(), ResolveError<String>> {
    for lists in [&[&["1.0.0"] as &[&str], &["2.0.0"]] as &[&[&str]], &[&["1.0.0"]]] {
        let dependencies = identify_cached_in_turn(lists)?.dependencies;
        assert_eq!(
            listed(&dependencies),
            vec![("a.a", "1.0.0"), ("c.c", "1.0.0")]
        );
    }
    Ok(())
}

#[test]
fn errors_come_through_the_cache() {
    let mut source = FakeGalaxySource::default();
    source.add_package("r.r", "1.0.0", &[("a.a", "*")]);

    let error = identify_cached(&source, "r.r", &None).expect_err("no versions");
    assert!(
        matches!(error, ResolveError::Source(message) if message == "missing fake versions for a.a")
    );
    let error = identify_cached(&source, "x.x", &Some("1")).expect_err("no entry");
    assert!(
        matches!(error, ResolveError::Source(message) if message == "missing fake package x.x@1")
    );
}

#[test]
fn errors_of_the_source_come_through() {
    let mut source = FakeGalaxySource::default();
    source.add_package("r.r", "1.0.0", &[("a.a", "*")]);

    let error = identify(&source, "r.r", &Some("1.0.0")).expect_err("no versions");
    assert!(error.message().is_none());
    assert!(
        matches!(error, ResolveError::Source(message) if message == "missing fake versions for a.a")
    );

    source
        .versions
        .insert("a.a".to_string(), vec!["1.0.0".to_string()]);
    let error = identify(&source, "r.r", &Some("1.0.0")).expect_err("no entry");
    assert!(
        matches!(error, ResolveError::Source(message) if message == "missing fake package a.a@1.0.0")
    );

    let error = identify(&source, "x.x", &None).expect_err("no versions");
    assert!(
        matches!(error, ResolveError::Source(message) if message == "missing fake versions for x.x")
    );

    let error = walk(&source, "x.x", "1").expect_err("no entry");
    assert!(
        matches!(error, ResolveError::Source(message) if message == "missing fake package x.x@1")
    );
}

#[test]
fn a_collection_without_versions_is_reported() {
    let mut source = FakeGalaxySource::default();
    source.add_package("r.r", "abc", &[]);

    let error = identify(&source, "r.r", &None).expect_err("no version");
    assert!(matches!(
        &error,
        ResolveError::Version(VersionError::NoLatestVersion)
    ));
    assert_eq!(
        error.message(),
        Some("Failed to find latest version.".to_string())
    );
}

#[test]
fn an_unreadable_requirement_is_reported_before_anything_is_asked() {
    let mut source = FakeGalaxySource::default();
    source.add_package("r.r", "1.0.0", &[("a.a", "!=1")]);

    let error = identify(&source, "r.r", &Some("1.0.0")).expect_err("no requirement");
    assert!(matches!(
        &error,
        ResolveError::Version(VersionError::InvalidRequirement { .. })
    ));
    assert_eq!(
        error.message(),
        Some("Failed to parse collection dependency requirement: !=1.0.0".to_string())
    );
    assert_eq!(source.version_call_count("a.a"), 0);
}

#[test]
fn an_unresolved_requirement_names_its_cause() {
    let mut source = FakeGalaxySource::default();
    source.add_package("r.r", "1.0.0", &[("a.a", ">=2")]);
    source.add_package("a.a", "1.0.0", &[]);

    match identify(&source, "r.r", &Some("1.0.0")).expect_err("nothing matches") {
        ResolveError::Unresolved {
            name,
            requirement,
            cause,
        } => {
            assert_eq!(name, "a.a");
            assert_eq!(requirement, ">=2");
            assert!(matches!(cause, VersionError::NoMatchingVersion));
        }
        other => panic!("unexpected error {:?}", other),
    }
}

#[test]
fn malformed_metadata_end_the_walk() {
    let step = resolve_dependency_closure::<String>("r.r", "1.0.0");
    let entry = object(vec![(
        "metadata",
        object(vec![("dependencies", JsonValue::Other)]),
    )]);
    match step {
        ClosureStep::Entry(request) => {
            assert_eq!(request.package().name, "r.r");
            assert_eq!(request.package().version, "1.0.0");
            match request.answer::<String>(Ok(&entry)) {
                ClosureStep::Finished(Err(error)) => {
                    assert!(matches!(
                        &error,
                        ResolveError::Metadata(MetadataError::DependenciesNotObject)
                    ));
                    assert_eq!(
                        error.message(),
                        Some(
                            "Failed to parse collection dependencies section as object."
                                .to_string()
                        )
                    );
                }
                _ => panic!("the walk went on"),
            }
        }
        _ => panic!("the walk did not ask for its root"),
    }
}

#[test]
fn the_latest_version_of_a_listing_is_chosen() {
    let versions = vec!["1.0".to_string(), "1.10".to_string(), "1.9".to_string()];
    assert_eq!(
        latest_version::<String>(Ok(&versions)).expect("a version"),
        "1.10"
    );
    let none: Vec<String> = Vec::new();
    assert!(matches!(
        latest_version::<String>(Ok(&none)),
        Err(ResolveError::Version(VersionError::NoLatestVersion))
    ));
    assert!(matches!(
        latest_version(Err("offline".to_string())),
        Err(ResolveError::Source(message)) if message == "offline"
    ));
}

#[test]
fn answers_that_are_kept_are_given_again() {
    let package = PackageKey {
        name: "a.a".to_string(),
        version: "1.0.0".to_string(),
    };
    let other = PackageKey {
        name: "a.a".to_string(),
        version: "2.0.0".to_string(),
    };
    let mut cache = CachedGalaxySource::new();
    assert!(cache.package_entry(&package).is_none());
    assert!(cache.package_versions("a.a").is_none());

    cache.keep_entry(package.clone(), text("first"));
    cache.keep_versions("a.a".to_string(), vec!["1.0.0".to_string()]);
    assert!(matches!(cache.package_entry(&package), Some(JsonValue::Text(t)) if t == "first"));
    assert!(cache.package_entry(&other).is_none());
    assert_eq!(
        cache.package_versions("a.a"),
        Some(&vec!["1.0.0".to_string()])
    );
    assert!(cache.package_versions("a.b").is_none());

    cache.keep_entry(package.clone(), text("second"));
    assert!(matches!(cache.package_entry(&package), Some(JsonValue::Text(t)) if t == "second"));
}
