//! What versions, requirements and the choice of a version mean, over texts and
//! over what `semver` says of them.

use vstd::prelude::*;

use crate::lexical::lex_less;
use crate::semantic::{semver_matches, semver_sort_key, semver_version};
use crate::text::{first_index, is_white_space, joined, occurrences, split_on, starts_with};
use crate::text::{first_index_is_first, lemma_first_index_is, lemma_joined_prepend};
use crate::text::{lemma_occurrences_add, trimmed, trimmed_end, trimmed_start};
use crate::text::trimming_takes_the_white_space_at_the_ends;
use crate::version::{compatible_versions, is_compatible, matching_versions, meets, newest};
use crate::version::{newest_exists, normalized_comparator};
use crate::version::{normalized_requirement, normalized_version, older_version, release_part};
use crate::version::{suffix_part, texts};

verus! {

/// White space is what Unicode lists as such.
pub proof fn white_space_is_what_unicode_lists(c: char)
    ensures
        is_white_space(c) <==> {
            ||| c == '\t' || c == '\n' || c == '\u{b}' || c == '\u{c}' || c == '\r' || c == ' '
            ||| c == '\u{85}' || c == '\u{a0}' || c == '\u{1680}'
            ||| c == '\u{2000}' || c == '\u{2001}' || c == '\u{2002}' || c == '\u{2003}'
            ||| c == '\u{2004}' || c == '\u{2005}' || c == '\u{2006}' || c == '\u{2007}'
            ||| c == '\u{2008}' || c == '\u{2009}' || c == '\u{200a}'
            ||| c == '\u{2028}' || c == '\u{2029}' || c == '\u{202f}' || c == '\u{205f}'
            ||| c == '\u{3000}'
        },
{
}

/// Trimming takes exactly the white space around a text that has none at its
/// ends.
pub proof fn trimming_leaves_the_core(before: Seq<char>, core: Seq<char>, after: Seq<char>)
    requires
        forall|k: int| 0 <= k < before.len() ==> is_white_space(#[trigger] before[k]),
        forall|k: int| 0 <= k < after.len() ==> is_white_space(#[trigger] after[k]),
        core.len() > 0 ==> !is_white_space(core[0]) && !is_white_space(core.last()),
    ensures
        trimmed(before + core + after) == core,
{
    let s = before + core + after;
    let (from, to) = trimming_takes_the_white_space_at_the_ends(s);
    let got = trimmed(s);
    if core.len() == 0 {
        if got.len() > 0 {
            assert(got[0] == s[from]);
            if from < before.len() {
                assert(s[from] == before[from]);
            } else {
                assert(s[from] == after[from - before.len()]);
            }
        }
        assert(got =~= core);
    } else {
        let first = before.len() as int;
        let last = before.len() + core.len() - 1;
        assert(s[first] == core[0]);
        assert(s[last] == core.last());
        assert(from <= first && last < to);
        assert(got[0] == s[from]);
        assert(got.last() == s[to - 1]);
        if from < first {
            assert(s[from] == before[from]);
        }
        if to - 1 > last {
            assert(s[to - 1] == after[to - 1 - last - 1]);
        }
        assert(got =~= core);
    }
}

/// One number gets two more, two numbers get one more, and three numbers or more
/// are kept; whatever follows from the first hyphen on is kept with them.
pub proof fn versions_are_filled_up(
    major: Seq<char>,
    minor: Seq<char>,
    others: Seq<char>,
    suffix: Seq<char>,
)
    requires
        !major.contains('.') && !major.contains('-'),
        !minor.contains('.') && !minor.contains('-'),
        !others.contains('-'),
        suffix.len() > 0 ==> suffix[0] == '-',
    ensures
        normalized_version(major + suffix) == major + seq!['.', '0', '.', '0'] + suffix,
        normalized_version(major + seq!['.'] + minor + suffix) == major + seq!['.'] + minor
            + seq!['.', '0'] + suffix,
        normalized_version(major + seq!['.'] + minor + seq!['.'] + others + suffix) == major
            + seq!['.'] + minor + seq!['.'] + others + suffix,
{
    lemma_parts(major, suffix);
    lemma_parts(major + seq!['.'] + minor, suffix);
    lemma_parts(major + seq!['.'] + minor + seq!['.'] + others, suffix);
    lemma_no_occurrences(major, '.');
    lemma_no_occurrences(minor, '.');
    lemma_one_occurrence('.');
    lemma_occurrences_add(major, seq!['.'], '.');
    lemma_occurrences_add(major + seq!['.'], minor, '.');
    lemma_occurrences_add(major + seq!['.'] + minor, seq!['.'], '.');
    lemma_occurrences_add(major + seq!['.'] + minor + seq!['.'], others, '.');
    let full = major + seq!['.'] + minor + seq!['.'] + others;
    assert(full + seq![] + suffix =~= full + suffix);
}

proof fn lemma_one_occurrence(c: char)
    ensures
        occurrences(seq![c], c) == 1,
{
    assert(seq![c].drop_last() =~= seq![]);
    assert(occurrences(seq![], c) == 0);
}

proof fn lemma_no_occurrences(s: Seq<char>, c: char)
    requires
        !s.contains(c),
    ensures
        occurrences(s, c) == 0,
    decreases s.len(),
{
    if s.len() > 0 {
        assert(s.contains(s.last()));
        assert forall|k: int| 0 <= k < s.drop_last().len() implies s.drop_last()[k] != c by {
            assert(s.contains(s[k]));
        }
        lemma_no_occurrences(s.drop_last(), c);
    }
}

proof fn lemma_parts(numbers: Seq<char>, suffix: Seq<char>)
    requires
        forall|k: int| 0 <= k < numbers.len() ==> numbers[k] != '-',
        suffix.len() > 0 ==> suffix[0] == '-',
    ensures
        release_part(numbers + suffix) == numbers,
        suffix_part(numbers + suffix) == suffix,
{
    let version = numbers + suffix;
    lemma_first_index_is(version, '-', numbers.len() as int);
    assert(release_part(version) =~= numbers);
    assert(suffix_part(version) =~= suffix);
}

proof fn lemma_starts_with_one(s: Seq<char>, a: char)
    ensures
        starts_with(s, seq![a]) <==> s.len() >= 1 && s[0] == a,
{
    if s.len() >= 1 {
        assert(s.take(1)[0] == s[0]);
        assert(seq![a][0] == a);
        if s[0] == a {
            assert(s.take(1) =~= seq![a]);
        }
    }
}

proof fn lemma_starts_with_two(s: Seq<char>, a: char, b: char)
    ensures
        starts_with(s, seq![a, b]) <==> s.len() >= 2 && s[0] == a && s[1] == b,
{
    if s.len() >= 2 {
        assert(s.take(2)[0] == s[0] && s.take(2)[1] == s[1]);
        assert(seq![a, b][0] == a && seq![a, b][1] == b);
        if s[0] == a && s[1] == b {
            assert(s.take(2) =~= seq![a, b]);
        }
    }
}

proof fn lemma_starts(s: Seq<char>)
    ensures
        starts_with(s, seq!['>', '=']) <==> s.len() >= 2 && s[0] == '>' && s[1] == '=',
        starts_with(s, seq!['<', '=']) <==> s.len() >= 2 && s[0] == '<' && s[1] == '=',
        starts_with(s, seq!['=', '=']) <==> s.len() >= 2 && s[0] == '=' && s[1] == '=',
        starts_with(s, seq!['=']) <==> s.len() >= 1 && s[0] == '=',
        starts_with(s, seq!['>']) <==> s.len() >= 1 && s[0] == '>',
        starts_with(s, seq!['<']) <==> s.len() >= 1 && s[0] == '<',
        starts_with(s, seq!['~']) <==> s.len() >= 1 && s[0] == '~',
        starts_with(s, seq!['^']) <==> s.len() >= 1 && s[0] == '^',
{
    lemma_starts_with_two(s, '>', '=');
    lemma_starts_with_two(s, '<', '=');
    lemma_starts_with_two(s, '=', '=');
    lemma_starts_with_one(s, '=');
    lemma_starts_with_one(s, '>');
    lemma_starts_with_one(s, '<');
    lemma_starts_with_one(s, '~');
    lemma_starts_with_one(s, '^');
}

/// The operator of a comparator is kept, in front of the version that follows it
/// with its numbers filled up. White space between them changes nothing.
pub proof fn operators_are_kept(operator: Seq<char>, version: Seq<char>)
    requires
        ({
            ||| operator == seq!['>', '=']
            ||| operator == seq!['<', '=']
            ||| operator == seq!['~']
            ||| operator == seq!['^']
            ||| operator == seq!['>'] && (version.len() > 0 ==> version[0] != '=')
            ||| operator == seq!['<'] && (version.len() > 0 ==> version[0] != '=')
        }),
        trimmed(version) != seq!['*'],
    ensures
        normalized_comparator(operator + version) == operator + normalized_version(
            trimmed(version),
        ),
{
    let comparator = operator + version;
    lemma_starts(comparator);
    assert(comparator.skip(operator.len() as int) =~= version);
    assert(comparator[0] == operator[0]);
    if operator.len() == 2 {
        assert(comparator[1] == operator[1]);
    } else if version.len() > 0 {
        assert(comparator[1] == version[0]);
    }
    assert(comparator != seq!['*']) by {
        assert(seq!['*'][0] == '*');
    }
}

/// Both ways to write that a version must be equal are written with one sign.
pub proof fn equal_signs_become_one(version: Seq<char>)
    requires
        trimmed(version) != seq!['*'],
    ensures
        normalized_comparator(seq!['=', '='] + version) == seq!['='] + normalized_version(
            trimmed(version),
        ),
        (version.len() > 0 ==> version[0] != '=') ==> normalized_comparator(seq!['='] + version)
            == seq!['='] + normalized_version(trimmed(version)),
{
    let two = seq!['=', '='] + version;
    let one = seq!['='] + version;
    lemma_starts(two);
    lemma_starts(one);
    assert(two.skip(2) =~= version);
    assert(one.skip(1) =~= version);
    assert(two[0] == '=' && two[1] == '=');
    assert(one[0] == '=');
    if version.len() > 0 {
        assert(one[1] == version[0]);
    }
    assert(seq!['*'][0] == '*');
}

/// A comparator without an operator is the version alone, with its numbers
/// filled up.
pub proof fn bare_versions_are_filled_up(version: Seq<char>)
    requires
        version.len() > 0,
        version[0] != '>' && version[0] != '<' && version[0] != '=' && version[0] != '~'
            && version[0] != '^',
        trimmed(version) != seq!['*'],
    ensures
        normalized_comparator(version) == normalized_version(trimmed(version)),
{
    lemma_starts(version);
    if version == seq!['*'] {
        assert(!is_white_space('*'));
        trimming_leaves_the_core(seq![], version, seq![]);
        assert(seq![] + version + seq![] =~= version);
    }
    assert(seq![] + normalized_version(trimmed(version)) =~= normalized_version(trimmed(version)));
}

/// A comparator that is empty, or asks for any version, with an operator or
/// without, is an asterisk.
pub proof fn any_version_is_an_asterisk(operator: Seq<char>, version: Seq<char>)
    requires
        ({
            ||| operator == seq!['>', '=']
            ||| operator == seq!['<', '=']
            ||| operator == seq!['=', '=']
            ||| operator == seq!['=']
            ||| operator == seq!['>']
            ||| operator == seq!['<']
            ||| operator == seq!['~']
            ||| operator == seq!['^']
            ||| operator.len() == 0
        }),
        trimmed(version) == seq!['*'],
    ensures
        normalized_comparator(operator + version) == seq!['*'],
        normalized_comparator(seq![]) == seq!['*'],
{
    let comparator = operator + version;
    let (from, to) = trimming_takes_the_white_space_at_the_ends(version);
    assert(seq!['*'].len() == 1 && seq!['*'][0] == '*');
    assert(version[from] == '*');
    assert(version.len() > 0);
    assert(version[0] == '*' || is_white_space(version[0])) by {
        if from > 0 {
            assert(is_white_space(version[0]));
        }
    }
    lemma_starts(comparator);
    if operator.len() > 0 {
        assert(comparator.skip(operator.len() as int) =~= version);
        assert(comparator[0] == operator[0]);
        if operator.len() == 2 {
            assert(comparator[1] == operator[1]);
        } else {
            assert(comparator[1] == version[0]);
        }
    } else {
        assert(comparator =~= version);
    }
}

/// The comparators of a requirement, each trimmed and normalized, joined again.
spec fn piecewise(requirement: Seq<char>) -> Seq<char> {
    joined(
        split_on(requirement, ',').map_values(
            |comparator: Seq<char>| normalized_comparator(trimmed(comparator)),
        ),
        seq![',', ' '],
    )
}

proof fn lemma_split_not_empty(s: Seq<char>, separator: char)
    ensures
        split_on(s, separator).len() > 0,
{
}

proof fn lemma_piecewise(s: Seq<char>)
    ensures
        ({
            let i = first_index(s, ',') as int;
            if i >= s.len() {
                piecewise(s) == normalized_comparator(trimmed(s))
            } else {
                piecewise(s) == normalized_comparator(trimmed(s.take(i))) + seq![',', ' ']
                    + piecewise(s.skip(i + 1))
            }
        }),
{
    let normal = |comparator: Seq<char>| normalized_comparator(trimmed(comparator));
    let i = first_index(s, ',') as int;
    let pieces = split_on(s, ',');
    if i >= s.len() {
        assert(pieces.map_values(normal) =~= seq![normal(s)]);
        assert(joined(seq![normal(s)], seq![',', ' ']) == normal(s));
    } else {
        let rest = split_on(s.skip(i + 1), ',');
        lemma_split_not_empty(s.skip(i + 1), ',');
        assert(pieces.map_values(normal) =~= seq![normal(s.take(i))] + rest.map_values(normal));
        lemma_joined_prepend(normal(s.take(i)), rest.map_values(normal), seq![',', ' ']);
    }
}

proof fn lemma_trim_front(s: Seq<char>)
    requires
        s.len() > 0,
        is_white_space(s[0]),
    ensures
        trimmed(s) == trimmed(s.drop_first()),
        piecewise(s) == piecewise(s.drop_first()),
{
    let rest = s.drop_first();
    lemma_piecewise(s);
    lemma_piecewise(rest);
    let i = first_index(s, ',') as int;
    assert(i == 1 + first_index(rest, ','));
    if i < s.len() {
        assert(s.take(i).drop_first() =~= rest.take(i - 1));
        assert(s.take(i)[0] == s[0]);
        assert(rest.skip(i) =~= s.skip(i + 1));
    }
}

proof fn lemma_trim_back(s: Seq<char>)
    requires
        s.len() > 0,
        is_white_space(s.last()),
    ensures
        trimmed(s) == trimmed(s.drop_last()),
{
    let shorter = s.drop_last();
    let (from, to) = trimming_takes_the_white_space_at_the_ends(shorter);
    let before = shorter.take(from);
    let after = s.skip(to);
    assert(s =~= before + trimmed(shorter) + after);
    assert forall|k: int| 0 <= k < after.len() implies is_white_space(#[trigger] after[k]) by {
        if to + k < shorter.len() {
            assert(after[k] == shorter[to + k]);
        }
    }
    trimming_leaves_the_core(before, trimmed(shorter), after);
}

proof fn lemma_piecewise_back(s: Seq<char>)
    requires
        s.len() > 0,
        is_white_space(s.last()),
    ensures
        piecewise(s) == piecewise(s.drop_last()),
    decreases s.len(),
{
    let shorter = s.drop_last();
    let i = first_index(s, ',') as int;
    first_index_is_first(s, ',');
    lemma_piecewise(s);
    lemma_piecewise(shorter);
    if i >= s.len() {
        lemma_first_index_is(shorter, ',', shorter.len() as int);
        lemma_trim_back(s);
    } else {
        assert(i < s.len() - 1);
        lemma_first_index_is(shorter, ',', i);
        let rest = s.skip(i + 1);
        assert(shorter.take(i) =~= s.take(i));
        assert(shorter.skip(i + 1) =~= rest.drop_last());
        lemma_piecewise_back(rest);
    }
}

proof fn lemma_piecewise_trimmed_start(s: Seq<char>)
    ensures
        piecewise(s) == piecewise(trimmed_start(s)),
    decreases s.len(),
{
    if s.len() > 0 && is_white_space(s[0]) {
        lemma_trim_front(s);
        lemma_piecewise_trimmed_start(s.drop_first());
    }
}

proof fn lemma_piecewise_trimmed_end(s: Seq<char>)
    ensures
        piecewise(s) == piecewise(trimmed_end(s)),
    decreases s.len(),
{
    if s.len() > 0 && is_white_space(s.last()) {
        lemma_piecewise_back(s);
        lemma_piecewise_trimmed_end(s.drop_last());
    }
}

proof fn lemma_requirement_is_piecewise(s: Seq<char>)
    ensures
        normalized_requirement(s) == piecewise(s),
{
    let asked = trimmed(s);
    lemma_piecewise_trimmed_start(s);
    lemma_piecewise_trimmed_end(trimmed_start(s));
    lemma_piecewise(asked);
    if asked.len() == 0 {
        assert(trimmed(asked) =~= asked);
    } else if asked == seq!['*'] {
        assert(asked[0] == '*');
        lemma_first_index_is(asked, ',', 1);
        trimming_leaves_the_core(seq![], asked, seq![]);
        assert(seq![] + asked + seq![] =~= asked);
    }
}

/// A requirement without a comma is one comparator, and white space around it
/// changes nothing.
pub proof fn requirement_without_a_comma_is_one_comparator(requirement: Seq<char>)
    requires
        !requirement.contains(','),
    ensures
        normalized_requirement(requirement) == normalized_comparator(trimmed(requirement)),
{
    lemma_requirement_is_piecewise(requirement);
    lemma_piecewise(requirement);
    lemma_first_index_is(requirement, ',', requirement.len() as int);
}

/// What stands before a comma and what stands after it are normalized each by
/// itself.
pub proof fn commas_separate_requirements(before: Seq<char>, after: Seq<char>)
    ensures
        normalized_requirement(before + seq![','] + after) == normalized_requirement(before)
            + seq![',', ' '] + normalized_requirement(after),
    decreases before.len(),
{
    let whole = before + seq![','] + after;
    lemma_requirement_is_piecewise(before);
    lemma_requirement_is_piecewise(after);
    lemma_requirement_is_piecewise(whole);
    lemma_piecewise(before);
    lemma_piecewise(whole);
    let i = first_index(before, ',') as int;
    first_index_is_first(before, ',');
    assert forall|k: int| 0 <= k < i implies whole[k] != ',' by {
        assert(whole[k] == before[k]);
    }
    lemma_first_index_is(whole, ',', i);
    assert(whole.take(i) =~= before.take(i));
    if i >= before.len() {
        assert(before.take(i) =~= before);
        assert(whole.skip(i + 1) =~= after);
    } else {
        let rest = before.skip(i + 1);
        assert(whole.skip(i + 1) =~= rest + seq![','] + after);
        commas_separate_requirements(rest, after);
        lemma_requirement_is_piecewise(rest);
        lemma_requirement_is_piecewise(rest + seq![','] + after);
        let head = normalized_comparator(trimmed(before.take(i))) + seq![',', ' '];
        assert(head + (piecewise(rest) + seq![',', ' '] + piecewise(after)) =~= head + piecewise(
            rest,
        ) + seq![',', ' '] + piecewise(after));
    }
}

/// Where an element of a filtered list stands in the list itself; all that is
/// kept of what comes after it there comes after it here.
proof fn lemma_place_before_filter(
    list: Seq<Seq<char>>,
    keep: spec_fn(Seq<char>) -> bool,
    f: int,
) -> (i: int)
    requires
        0 <= f < list.filter(keep).len(),
    ensures
        0 <= i < list.len(),
        list[i] == list.filter(keep)[f],
        keep(list[i]),
        forall|j: int|
            i < j < list.len() && keep(#[trigger] list[j]) ==> exists|g: int|
                f < g < list.filter(keep).len() && #[trigger] list.filter(keep)[g] == list[j],
    decreases list.len(),
{
    reveal(Seq::filter);
    let all = list.filter(keep);
    let shorter = list.drop_last();
    let kept = shorter.filter(keep);
    if list.len() == 0 {
        0
    } else if keep(list.last()) && f == kept.len() {
        list.len() - 1
    } else {
        let i = lemma_place_before_filter(shorter, keep, f);
        assert(all[f] == kept[f]);
        assert(list[i] == shorter[i]);
        assert forall|j: int| i < j < list.len() && keep(#[trigger] list[j]) implies exists|g: int|
            f < g < all.len() && #[trigger] all[g] == list[j] by {
            if j < shorter.len() {
                assert(shorter[j] == list[j]);
                let g = choose|g: int| f < g < kept.len() && #[trigger] kept[g] == shorter[j];
                assert(all[g] == list[j]);
            } else {
                assert(all[kept.len() as int] == list[j]);
            }
        }
        i
    }
}

/// Every element that is kept has a place in the filtered list.
proof fn lemma_kept_has_a_place(list: Seq<Seq<char>>, keep: spec_fn(Seq<char>) -> bool, j: int) -> (
g: int)
    requires
        0 <= j < list.len(),
        keep(list[j]),
    ensures
        0 <= g < list.filter(keep).len(),
        list.filter(keep)[g] == list[j],
    decreases list.len(),
{
    reveal(Seq::filter);
    let shorter = list.drop_last();
    let kept = shorter.filter(keep);
    if j == list.len() - 1 {
        kept.len() as int
    } else {
        assert(shorter[j] == list[j]);
        let g = lemma_kept_has_a_place(shorter, keep, j);
        assert(list.filter(keep)[g] == kept[g]);
        g
    }
}

/// The version chosen from a list is one of the texts in it that `semver` reads
/// with the numbers filled up. None of the others that it reads is newer in
/// semver's order, and those that are listed later are older. None is chosen
/// only where `semver` reads none.
pub proof fn latest_version_is_newest_by_semver(versions: Seq<Seq<char>>)
    ensures
        match newest(compatible_versions(versions)) {
            Some(latest) => exists|i: int|
                {
                    &&& 0 <= i < versions.len()
                    &&& #[trigger] versions[i] == latest
                    &&& semver_version(normalized_version(versions[i])) is Ok
                    &&& forall|j: int|
                        0 <= j < versions.len() && semver_version(
                            normalized_version(#[trigger] versions[j]),
                        ) is Ok ==> !lex_less(
                            semver_sort_key(normalized_version(latest)),
                            semver_sort_key(normalized_version(versions[j])),
                        )
                    &&& forall|j: int|
                        i < j < versions.len() && semver_version(
                            normalized_version(#[trigger] versions[j]),
                        ) is Ok ==> lex_less(
                            semver_sort_key(normalized_version(versions[j])),
                            semver_sort_key(normalized_version(latest)),
                        )
                },
            None => forall|j: int|
                0 <= j < versions.len() ==> semver_version(
                    normalized_version(#[trigger] versions[j]),
                ) is Err,
        },
{
    let keep = |version: Seq<char>| is_compatible(version);
    let candidates = compatible_versions(versions);
    if candidates.len() > 0 {
        let f = newest_exists(candidates);
        let latest = candidates[f];
        let i = lemma_place_before_filter(versions, keep, f);
        assert forall|j: int|
            0 <= j < versions.len() && semver_version(
                normalized_version(#[trigger] versions[j]),
            ) is Ok implies !lex_less(
            semver_sort_key(normalized_version(latest)),
            semver_sort_key(normalized_version(versions[j])),
        ) by {
            let g = lemma_kept_has_a_place(versions, keep, j);
            assert(!older_version(candidates[f], candidates[g]));
        }
        assert forall|j: int|
            i < j < versions.len() && semver_version(
                normalized_version(#[trigger] versions[j]),
            ) is Ok implies lex_less(
            semver_sort_key(normalized_version(versions[j])),
            semver_sort_key(normalized_version(latest)),
        ) by {
            assert(keep(versions[j]));
            let g = choose|g: int|
                f < g < candidates.len() && #[trigger] candidates[g] == versions[j];
            assert(older_version(candidates[g], candidates[f]));
        }
        assert(versions[i] == latest);
    } else {
        assert forall|j: int| 0 <= j < versions.len() implies semver_version(
            normalized_version(#[trigger] versions[j]),
        ) is Err by {
            if semver_version(normalized_version(versions[j])) is Ok {
                let g = lemma_kept_has_a_place(versions, keep, j);
            }
        }
    }
}

/// The version chosen for a requirement is one of the listed texts that `semver`
/// reads, with the numbers filled up, and that match the requirement by semver.
/// None of the others of which that holds is newer in semver's order, and those
/// that are listed later are older. None is chosen only where it holds of none.
pub proof fn matching_version_is_newest_by_semver(
    versions: Seq<Seq<char>>,
    requirement: Seq<char>,
)
    ensures
        match newest(matching_versions(versions, requirement)) {
            Some(latest) => exists|i: int|
                {
                    &&& 0 <= i < versions.len()
                    &&& #[trigger] versions[i] == latest
                    &&& semver_version(normalized_version(versions[i])) is Ok
                    &&& semver_matches(requirement, normalized_version(versions[i]))
                    &&& forall|j: int|
                        0 <= j < versions.len() && semver_version(
                            normalized_version(#[trigger] versions[j]),
                        ) is Ok && semver_matches(requirement, normalized_version(versions[j]))
                            ==> !lex_less(
                            semver_sort_key(normalized_version(latest)),
                            semver_sort_key(normalized_version(versions[j])),
                        )
                    &&& forall|j: int|
                        i < j < versions.len() && semver_version(
                            normalized_version(#[trigger] versions[j]),
                        ) is Ok && semver_matches(requirement, normalized_version(versions[j]))
                            ==> lex_less(
                            semver_sort_key(normalized_version(versions[j])),
                            semver_sort_key(normalized_version(latest)),
                        )
                },
            None => forall|j: int|
                0 <= j < versions.len() && semver_version(
                    normalized_version(#[trigger] versions[j]),
                ) is Ok ==> !semver_matches(requirement, normalized_version(versions[j])),
        },
{
    let keep = |version: Seq<char>| is_compatible(version);
    let met = |version: Seq<char>| meets(requirement, version);
    let candidates = compatible_versions(versions);
    let matching = matching_versions(versions, requirement);
    if matching.len() > 0 {
        let f = newest_exists(matching);
        let latest = matching[f];
        let c = lemma_place_before_filter(candidates, met, f);
        let i = lemma_place_before_filter(versions, keep, c);
        assert forall|j: int|
            0 <= j < versions.len() && semver_version(
                normalized_version(#[trigger] versions[j]),
            ) is Ok && semver_matches(requirement, normalized_version(versions[j])) implies !lex_less(
            semver_sort_key(normalized_version(latest)),
            semver_sort_key(normalized_version(versions[j])),
        ) by {
            let h = lemma_kept_has_a_place(versions, keep, j);
            let g = lemma_kept_has_a_place(candidates, met, h);
            assert(!older_version(matching[f], matching[g]));
        }
        assert forall|j: int|
            i < j < versions.len() && semver_version(
                normalized_version(#[trigger] versions[j]),
            ) is Ok && semver_matches(requirement, normalized_version(versions[j])) implies lex_less(
            semver_sort_key(normalized_version(versions[j])),
            semver_sort_key(normalized_version(latest)),
        ) by {
            assert(keep(versions[j]));
            let h = choose|h: int|
                c < h < candidates.len() && #[trigger] candidates[h] == versions[j];
            assert(met(candidates[h]));
            let g = choose|g: int|
                f < g < matching.len() && #[trigger] matching[g] == candidates[h];
            assert(older_version(matching[g], matching[f]));
        }
        assert(versions[i] == latest);
    } else {
        assert forall|j: int|
            0 <= j < versions.len() && semver_version(
                normalized_version(#[trigger] versions[j]),
            ) is Ok implies !semver_matches(requirement, normalized_version(versions[j])) by {
            if semver_matches(requirement, normalized_version(versions[j])) {
                let h = lemma_kept_has_a_place(versions, keep, j);
                let g = lemma_kept_has_a_place(candidates, met, h);
            }
        }
    }
}

/// One more version at the end of a list is kept at the end, if `semver` reads
/// it with the numbers filled up, and is left out if not.
pub proof fn versions_are_kept_exactly_as_semver_reads_them(
    versions: Seq<Seq<char>>,
    version: Seq<char>,
)
    ensures
        compatible_versions(seq![]) == Seq::<Seq<char>>::empty(),
        compatible_versions(versions.push(version)) == if semver_version(
            normalized_version(version),
        ) is Ok {
            compatible_versions(versions).push(version)
        } else {
            compatible_versions(versions)
        },
{
    reveal(Seq::filter);
    assert(versions.push(version).drop_last() =~= versions);
    let none: Seq<Seq<char>> = seq![];
    none.lemma_filter_len(|v: Seq<char>| is_compatible(v));
    assert(compatible_versions(none) =~= Seq::<Seq<char>>::empty());
}

/// A list of texts is read text by text.
pub proof fn texts_are_the_listed_texts(list: Seq<String>)
    ensures
        texts(list).len() == list.len(),
        forall|i: int| 0 <= i < list.len() ==> #[trigger] texts(list)[i] == list[i]@,
{
}

} // verus!
