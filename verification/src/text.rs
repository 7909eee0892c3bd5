//! Text as sequences of characters: trimming, splitting and joining.

use vstd::prelude::*;

verus! {

/// The characters with the Unicode property `White_Space`.
pub open spec fn is_white_space(c: char) -> bool {
    ||| 0x9 <= c as int <= 0xd
    ||| c as int == 0x20
    ||| c as int == 0x85
    ||| c as int == 0xa0
    ||| c as int == 0x1680
    ||| 0x2000 <= c as int <= 0x200a
    ||| c as int == 0x2028
    ||| c as int == 0x2029
    ||| c as int == 0x202f
    ||| c as int == 0x205f
    ||| c as int == 0x3000
}

/// The text from its first character that is no white space on.
pub open spec fn trimmed_start(s: Seq<char>) -> Seq<char>
    decreases s.len(),
{
    if s.len() > 0 && is_white_space(s[0]) {
        trimmed_start(s.drop_first())
    } else {
        s
    }
}

/// The text up to and with its last character that is no white space.
pub open spec fn trimmed_end(s: Seq<char>) -> Seq<char>
    decreases s.len(),
{
    if s.len() > 0 && is_white_space(s.last()) {
        trimmed_end(s.drop_last())
    } else {
        s
    }
}

/// The text without white space at either end.
pub open spec fn trimmed(s: Seq<char>) -> Seq<char> {
    trimmed_end(trimmed_start(s))
}

/// Where `c` first occurs in `s`, or the length of `s` if it does not.
pub open spec fn first_index(s: Seq<char>, c: char) -> nat
    decreases s.len(),
{
    if s.len() == 0 || s[0] == c {
        0
    } else {
        1 + first_index(s.drop_first(), c)
    }
}

/// How often `c` occurs in `s`.
pub open spec fn occurrences(s: Seq<char>, c: char) -> nat
    decreases s.len(),
{
    if s.len() == 0 {
        0
    } else {
        occurrences(s.drop_last(), c) + (if s.last() == c {
            1nat
        } else {
            0nat
        })
    }
}

/// The pieces of `s` between the occurrences of `separator`, in order. There is
/// always at least one.
pub open spec fn split_on(s: Seq<char>, separator: char) -> Seq<Seq<char>>
    decreases s.len(),
{
    let i = first_index(s, separator) as int;
    if i >= s.len() {
        seq![s]
    } else {
        seq![s.take(i)] + split_on(s.skip(i + 1), separator)
    }
}

/// The pieces one after the other, with `separator` between neighbours.
pub open spec fn joined(pieces: Seq<Seq<char>>, separator: Seq<char>) -> Seq<char>
    decreases pieces.len(),
{
    if pieces.len() == 0 {
        seq![]
    } else if pieces.len() == 1 {
        pieces[0]
    } else {
        joined(pieces.drop_last(), separator) + separator + pieces.last()
    }
}

/// `s` starts with `prefix`.
pub open spec fn starts_with(s: Seq<char>, prefix: Seq<char>) -> bool {
    s.len() >= prefix.len() && s.take(prefix.len() as int) == prefix
}

/// `c` does not occur before its first place, and occurs there if anywhere.
pub proof fn first_index_is_first(s: Seq<char>, c: char)
    ensures
        first_index(s, c) <= s.len(),
        forall|k: int| 0 <= k < first_index(s, c) ==> s[k] != c,
        first_index(s, c) < s.len() ==> s[first_index(s, c) as int] == c,
    decreases s.len(),
{
    if s.len() > 0 && s[0] != c {
        let rest = s.drop_first();
        first_index_is_first(rest, c);
        assert forall|k: int| 0 <= k < first_index(s, c) implies s[k] != c by {
            if k > 0 {
                assert(rest[k - 1] == s[k]);
            }
        }
        if first_index(s, c) < s.len() {
            assert(rest[first_index(rest, c) as int] == s[first_index(s, c) as int]);
        }
    }
}

/// Only one place is the first.
pub(crate) proof fn lemma_first_index_is(s: Seq<char>, c: char, k: int)
    requires
        0 <= k <= s.len(),
        forall|j: int| 0 <= j < k ==> s[j] != c,
        k < s.len() ==> s[k] == c,
    ensures
        first_index(s, c) == k,
{
    first_index_is_first(s, c);
    let found = first_index(s, c) as int;
    if found < k {
        assert(s[found] == c);
    }
}

/// A character occurs in two texts together as often as in both.
pub(crate) proof fn lemma_occurrences_add(a: Seq<char>, b: Seq<char>, c: char)
    ensures
        occurrences(a + b, c) == occurrences(a, c) + occurrences(b, c),
    decreases b.len(),
{
    if b.len() == 0 {
        assert(a + b =~= a);
    } else {
        lemma_occurrences_add(a, b.drop_last(), c);
        assert((a + b).drop_last() =~= a + b.drop_last());
    }
}

/// The pieces that a text is split into hold no separator, and joined by it they
/// are the text again.
pub proof fn split_and_join_restore(s: Seq<char>, separator: char)
    ensures
        joined(split_on(s, separator), seq![separator]) == s,
        forall|i: int|
            0 <= i < split_on(s, separator).len() ==> !(#[trigger] split_on(s, separator)[i]).contains(
                separator,
            ),
    decreases s.len(),
{
    first_index_is_first(s, separator);
    let i = first_index(s, separator) as int;
    let pieces = split_on(s, separator);
    if i >= s.len() {
        assert(pieces.drop_last() =~= seq![]);
    } else {
        let rest = s.skip(i + 1);
        let tail = split_on(rest, separator);
        split_and_join_restore(rest, separator);
        lemma_joined_prepend(s.take(i), tail, seq![separator]);
        assert(s =~= s.take(i) + seq![separator] + rest);
        assert forall|k: int| 0 <= k < pieces.len() implies !(#[trigger] pieces[k]).contains(
            separator,
        ) by {
            if k > 0 {
                assert(pieces[k] == tail[k - 1]);
            }
        }
    }
}

/// A piece put in front comes first, with the separator behind it.
pub(crate) proof fn lemma_joined_prepend(first: Seq<char>, pieces: Seq<Seq<char>>, separator: Seq<char>)
    requires
        pieces.len() > 0,
    ensures
        joined(seq![first] + pieces, separator) == first + separator + joined(pieces, separator),
    decreases pieces.len(),
{
    let all = seq![first] + pieces;
    assert(all.drop_last() =~= seq![first] + pieces.drop_last());
    assert(all.last() == pieces.last());
    if pieces.len() == 1 {
        assert(all.drop_last() =~= seq![first]);
        assert(joined(seq![first], separator) == first);
    } else {
        lemma_joined_prepend(first, pieces.drop_last(), separator);
        assert(joined(all, separator) =~= first + separator + joined(pieces, separator));
    }
}

/// A trimmed text neither starts nor ends with white space, and only white space
/// was taken from it.
pub proof fn trimming_takes_the_white_space_at_the_ends(s: Seq<char>) -> (ends: (int, int))
    ensures
        0 <= ends.0 <= ends.1 <= s.len(),
        trimmed(s) == s.subrange(ends.0, ends.1),
        forall|k: int| 0 <= k < ends.0 || ends.1 <= k < s.len() ==> is_white_space(s[k]),
        trimmed(s).len() > 0 ==> !is_white_space(trimmed(s)[0]) && !is_white_space(
            trimmed(s).last(),
        ),
{
    let from = lemma_trimmed_start(s);
    let rest = s.skip(from);
    let to = lemma_trimmed_end(rest);
    assert(trimmed(s) =~= s.subrange(from, from + to));
    assert forall|k: int| 0 <= k < from || from + to <= k < s.len() implies is_white_space(
        s[k],
    ) by {
        if from + to <= k {
            assert(rest[k - from] == s[k]);
        }
    }
    (from, from + to)
}

proof fn lemma_trimmed_start(s: Seq<char>) -> (from: int)
    ensures
        0 <= from <= s.len(),
        trimmed_start(s) == s.skip(from),
        forall|k: int| 0 <= k < from ==> is_white_space(s[k]),
        from < s.len() ==> !is_white_space(s[from]),
    decreases s.len(),
{
    if s.len() > 0 && is_white_space(s[0]) {
        let rest = s.drop_first();
        let from = lemma_trimmed_start(rest);
        assert(rest.skip(from) =~= s.skip(from + 1));
        assert forall|k: int| 0 <= k < from + 1 implies is_white_space(s[k]) by {
            if k > 0 {
                assert(rest[k - 1] == s[k]);
            }
        }
        if from < rest.len() {
            assert(rest[from] == s[from + 1]);
        }
        from + 1
    } else {
        assert(s.skip(0) =~= s);
        0
    }
}

proof fn lemma_trimmed_end(s: Seq<char>) -> (to: int)
    ensures
        0 <= to <= s.len(),
        trimmed_end(s) == s.take(to),
        forall|k: int| to <= k < s.len() ==> is_white_space(s[k]),
        to > 0 ==> !is_white_space(s[to - 1]),
    decreases s.len(),
{
    if s.len() > 0 && is_white_space(s.last()) {
        let rest = s.drop_last();
        let to = lemma_trimmed_end(rest);
        assert(rest.take(to) =~= s.take(to));
        assert forall|k: int| to <= k < s.len() implies is_white_space(s[k]) by {
            if k < rest.len() {
                assert(rest[k] == s[k]);
            }
        }
        to
    } else {
        assert(s.take(s.len() as int) =~= s);
        s.len() as int
    }
}

/// The characters of a text, one by one.
pub(crate) fn chars_of(text: &str) -> (r: Vec<char>)
    ensures
        r@ == text@,
{
    let mut out: Vec<char> = Vec::new();
    for c in it: text.chars()
        invariant
            out@ == text@.take(it.index() as int),
            it.seq() == text@,
    {
        assert(text@.take(it.index() + 1) =~= text@.take(it.index() as int).push(c));
        out.push(c);
    }
    assert(text@.take(text@.len() as int) =~= text@);
    out
}

/// Whether two texts are the same.
pub(crate) fn same_text(a: &str, b: &str) -> (r: bool)
    ensures
        r == (a@ == b@),
{
    let left: Vec<char> = chars_of(a);
    let right: Vec<char> = chars_of(b);
    if left.len() != right.len() {
        return false;
    }
    let mut i: usize = 0;
    while i < left.len()
        invariant
            left@ == a@,
            right@ == b@,
            left.len() == right.len(),
            i <= left.len(),
            forall|k: int| 0 <= k < i ==> a@[k] == b@[k],
        decreases left.len() - i,
    {
        if left[i] != right[i] {
            assert(a@[i as int] != b@[i as int]);
            return false;
        }
        i = i + 1;
    }
    assert(a@ =~= b@);
    true
}

fn white_space(c: char) -> (r: bool)
    ensures
        r == is_white_space(c),
{
    let point: u32 = c as u32;
    (0x9 <= point && point <= 0xd) || point == 0x20 || point == 0x85 || point == 0xa0 || point
        == 0x1680 || (0x2000 <= point && point <= 0x200a) || point == 0x2028 || point == 0x2029
        || point == 0x202f || point == 0x205f || point == 0x3000
}

/// The text without the white space at its ends.
pub(crate) fn trim(text: &str) -> (r: &str)
    ensures
        r@ == trimmed(text@),
{
    let chars: Vec<char> = chars_of(text);
    let mut from: usize = 0;
    assert(text@.skip(0) =~= text@);
    while from < chars.len() && white_space(chars[from])
        invariant
            chars@ == text@,
            from <= chars.len(),
            trimmed_start(text@) == trimmed_start(text@.skip(from as int)),
        decreases chars.len() - from,
    {
        assert(text@.skip(from as int).drop_first() =~= text@.skip(from + 1));
        from = from + 1;
    }
    let ghost rest = text@.skip(from as int);
    assert(trimmed_start(text@) == rest);
    let mut to: usize = chars.len();
    assert(text@.subrange(from as int, to as int) =~= rest);
    while to > from && white_space(chars[to - 1])
        invariant
            chars@ == text@,
            from <= to <= chars.len(),
            trimmed_end(rest) == trimmed_end(text@.subrange(from as int, to as int)),
        decreases to,
    {
        let ghost now = text@.subrange(from as int, to as int);
        assert(now.drop_last() =~= text@.subrange(from as int, to - 1));
        to = to - 1;
    }
    text.substring_char(from, to)
}

/// Where `c` first occurs in `text` at or after `from`, counted in characters.
fn find_from(chars: &Vec<char>, c: char, from: usize) -> (r: usize)
    requires
        from <= chars.len(),
    ensures
        from <= r <= chars.len(),
        r == from + first_index(chars@.skip(from as int), c),
{
    let mut i: usize = from;
    while i < chars.len() && chars[i] != c
        invariant
            from <= i <= chars.len(),
            from + first_index(chars@.skip(from as int), c) == i + first_index(
                chars@.skip(i as int),
                c,
            ),
        decreases chars.len() - i,
    {
        assert(chars@.skip(i as int).drop_first() =~= chars@.skip(i + 1));
        i = i + 1;
    }
    i
}

/// Where `c` first occurs in `text`, counted in characters; the number of
/// characters if it does not occur.
pub(crate) fn find(text: &str, c: char) -> (r: usize)
    ensures
        r <= text@.len(),
        r == first_index(text@, c),
{
    let chars: Vec<char> = chars_of(text);
    assert(chars@.skip(0) =~= chars@);
    find_from(&chars, c, 0)
}

/// How often `c` occurs in `text`.
pub(crate) fn count(text: &str, c: char) -> (r: usize)
    ensures
        r == occurrences(text@, c),
{
    let chars: Vec<char> = chars_of(text);
    let mut n: usize = 0;
    let mut i: usize = 0;
    while i < chars.len()
        invariant
            chars@ == text@,
            i <= chars.len(),
            n <= i,
            n == occurrences(text@.take(i as int), c),
        decreases chars.len() - i,
    {
        assert(text@.take(i + 1).drop_last() =~= text@.take(i as int));
        if chars[i] == c {
            n = n + 1;
        }
        i = i + 1;
    }
    assert(text@.take(i as int) =~= text@);
    n
}

/// The pieces of `text` between the occurrences of `separator`.
pub(crate) fn split<'a>(text: &'a str, separator: char) -> (r: Vec<&'a str>)
    ensures
        r@.map_values(|p: &str| p@) == split_on(text@, separator),
{
    let chars: Vec<char> = chars_of(text);
    let mut pieces: Vec<&'a str> = Vec::new();
    let mut from: usize = 0;
    let ghost done = pieces@.map_values(|p: &str| p@);
    assert(chars@.skip(0) =~= chars@);
    assert(done + split_on(chars@, separator) =~= split_on(chars@, separator));
    loop
        invariant
            chars@ == text@,
            from <= chars.len(),
            done == pieces@.map_values(|p: &str| p@),
            split_on(text@, separator) == done + split_on(text@.skip(from as int), separator),
        decreases chars.len() - from,
    {
        let at: usize = find_from(&chars, separator, from);
        let piece: &'a str = text.substring_char(from, at);
        let ghost rest = text@.skip(from as int);
        let ghost before = done;
        pieces.push(piece);
        proof {
            assert(piece@ =~= rest.take(at - from));
            done = pieces@.map_values(|p: &str| p@);
            assert(done =~= before.push(piece@));
        }
        if at >= chars.len() {
            proof {
                assert(rest.take(at - from) =~= rest);
                assert(before + seq![rest] =~= done);
            }
            return pieces;
        }
        proof {
            assert(rest.skip(at - from + 1) =~= text@.skip(at + 1));
            assert(before + (seq![piece@] + split_on(text@.skip(at + 1), separator)) =~= done
                + split_on(text@.skip(at + 1), separator));
        }
        from = at + 1;
    }
}

/// The pieces one after the other, with `separator` between neighbours.
pub(crate) fn join(pieces: &Vec<String>, separator: &str) -> (r: String)
    ensures
        r@ == joined(pieces@.map_values(|p: String| p@), separator@),
{
    let ghost all = pieces@.map_values(|p: String| p@);
    let mut out: String = String::new();
    let mut i: usize = 0;
    assert(all.take(0) =~= seq![]);
    while i < pieces.len()
        invariant
            all == pieces@.map_values(|p: String| p@),
            i <= pieces.len(),
            out@ == joined(all.take(i as int), separator@),
        decreases pieces.len() - i,
    {
        let ghost before = out@;
        if i > 0 {
            out.append(separator);
        }
        out.append(pieces[i].as_str());
        proof {
            assert(all.take(i + 1).drop_last() =~= all.take(i as int));
            assert(all.take(i + 1).last() == pieces[i as int]@);
            if i == 0 {
                assert(out@ =~= pieces[0]@);
            }
        }
        i = i + 1;
    }
    assert(all.take(i as int) =~= all);
    out
}

/// What follows `prefix` in `text`, if `text` starts with it.
pub(crate) fn strip_prefix<'a>(text: &'a str, prefix: &str) -> (r: Option<&'a str>)
    ensures
        match r {
            Some(rest) => starts_with(text@, prefix@) && rest@ == text@.skip(
                prefix@.len() as int,
            ),
            None => !starts_with(text@, prefix@),
        },
{
    let length: usize = text.unicode_len();
    let taken: usize = prefix.unicode_len();
    if length < taken {
        return None;
    }
    let head: &str = text.substring_char(0, taken);
    assert(head@ =~= text@.take(taken as int));
    if same_text(head, prefix) {
        let rest: &'a str = text.substring_char(taken, length);
        assert(rest@ =~= text@.skip(taken as int));
        Some(rest)
    } else {
        None
    }
}

} // verus!
