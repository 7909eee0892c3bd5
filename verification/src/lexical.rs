//! Lexicographic order, on sequences of integers and on text.

use vstd::prelude::*;

use crate::text::chars_of;

verus! {

/// `a` comes before `b` when the first place where they differ holds the
/// smaller number in `a`, or when `a` ends there and `b` goes on.
pub open spec fn lex_less(a: Seq<int>, b: Seq<int>) -> bool
    decreases a.len(),
{
    if b.len() == 0 {
        false
    } else if a.len() == 0 {
        true
    } else if a[0] != b[0] {
        a[0] < b[0]
    } else {
        lex_less(a.drop_first(), b.drop_first())
    }
}

/// The code points of a text.
pub open spec fn code_points(text: Seq<char>) -> Seq<int> {
    text.map_values(|c: char| c as int)
}

/// The order of text: lexicographic by code point.
pub open spec fn text_less(a: Seq<char>, b: Seq<char>) -> bool {
    lex_less(code_points(a), code_points(b))
}

/// Nothing comes before itself.
pub proof fn lex_less_is_irreflexive(a: Seq<int>)
    ensures
        !lex_less(a, a),
    decreases a.len(),
{
    if a.len() > 0 {
        lex_less_is_irreflexive(a.drop_first());
    }
}

/// What comes before something earlier comes before what is later.
pub proof fn lex_less_is_transitive(a: Seq<int>, b: Seq<int>, c: Seq<int>)
    requires
        lex_less(a, b),
        lex_less(b, c),
    ensures
        lex_less(a, c),
    decreases a.len(),
{
    if a.len() > 0 && a[0] == b[0] && b[0] == c[0] {
        lex_less_is_transitive(a.drop_first(), b.drop_first(), c.drop_first());
    }
}

/// Of two different sequences one comes before the other.
pub proof fn lex_less_is_total(a: Seq<int>, b: Seq<int>)
    ensures
        lex_less(a, b) || a == b || lex_less(b, a),
    decreases a.len(),
{
    if a.len() == 0 {
        if b.len() == 0 {
            assert(a =~= b);
        }
    } else if b.len() > 0 && a[0] == b[0] {
        lex_less_is_total(a.drop_first(), b.drop_first());
        if a.drop_first() == b.drop_first() {
            assert(a =~= seq![a[0]] + a.drop_first());
            assert(b =~= seq![b[0]] + b.drop_first());
        }
    }
}

/// One sequence comes before another exactly when they agree up to some place,
/// where the first has the smaller number or has ended and the second has not.
pub proof fn lex_less_compares_at_the_first_difference(a: Seq<int>, b: Seq<int>)
    ensures
        lex_less(a, b) <==> exists|k: int|
            {
                &&& 0 <= k <= a.len()
                &&& k < b.len()
                &&& #[trigger] a.take(k) == b.take(k)
                &&& k == a.len() || a[k] < b[k]
            },
{
    if lex_less(a, b) {
        let k = lemma_first_difference(a, b);
        assert(a.take(k) == b.take(k));
    }
    if exists|k: int|
        {
            &&& 0 <= k <= a.len()
            &&& k < b.len()
            &&& #[trigger] a.take(k) == b.take(k)
            &&& k == a.len() || a[k] < b[k]
        } {
        let k = choose|k: int|
            {
                &&& 0 <= k <= a.len()
                &&& k < b.len()
                &&& #[trigger] a.take(k) == b.take(k)
                &&& k == a.len() || a[k] < b[k]
            };
        lemma_lex_less_skip(a, b, k);
    }
}

proof fn lemma_first_difference(a: Seq<int>, b: Seq<int>) -> (k: int)
    requires
        lex_less(a, b),
    ensures
        0 <= k <= a.len(),
        k < b.len(),
        a.take(k) == b.take(k),
        k == a.len() || a[k] < b[k],
    decreases a.len(),
{
    if a.len() == 0 || a[0] != b[0] {
        assert(a.take(0) =~= b.take(0));
        0
    } else {
        let k = lemma_first_difference(a.drop_first(), b.drop_first());
        assert forall|i: int| 0 <= i < k + 1 implies a[i] == b[i] by {
            if i > 0 {
                assert(a.drop_first().take(k)[i - 1] == b.drop_first().take(k)[i - 1]);
            }
        }
        assert(a.take(k + 1) =~= b.take(k + 1));
        k + 1
    }
}

/// Text is told apart by its code points.
pub proof fn lemma_code_points_injective(a: Seq<char>, b: Seq<char>)
    requires
        code_points(a) == code_points(b),
    ensures
        a == b,
{
    assert(a.len() == code_points(a).len());
    assert(b.len() == code_points(b).len());
    assert forall|i: int| 0 <= i < a.len() implies a[i] == b[i] by {
        assert(code_points(a)[i] == a[i] as int);
        assert(code_points(b)[i] == b[i] as int);
    }
    assert(a =~= b);
}

/// Two sequences with a common prefix are ordered as their remainders are.
proof fn lemma_lex_less_skip(a: Seq<int>, b: Seq<int>, k: int)
    requires
        0 <= k <= a.len(),
        k <= b.len(),
        a.take(k) == b.take(k),
    ensures
        lex_less(a, b) == lex_less(a.skip(k), b.skip(k)),
    decreases k,
{
    if k == 0 {
        assert(a.skip(0) =~= a);
        assert(b.skip(0) =~= b);
    } else {
        assert(a.take(k)[0] == a[0] && b.take(k)[0] == b[0]);
        assert(a.drop_first().take(k - 1) =~= a.take(k).drop_first());
        assert(b.drop_first().take(k - 1) =~= b.take(k).drop_first());
        lemma_lex_less_skip(a.drop_first(), b.drop_first(), k - 1);
        assert(a.drop_first().skip(k - 1) =~= a.skip(k));
        assert(b.drop_first().skip(k - 1) =~= b.skip(k));
    }
}

/// Whether `a` comes before `b`.
pub(crate) fn text_precedes(a: &str, b: &str) -> (r: bool)
    ensures
        r == text_less(a@, b@),
{
    let left: Vec<char> = chars_of(a);
    let right: Vec<char> = chars_of(b);
    let ghost l = code_points(a@);
    let ghost r = code_points(b@);
    let mut i: usize = 0;
    while i < left.len() && i < right.len() && left[i] == right[i]
        invariant
            left@ == a@,
            right@ == b@,
            l == code_points(a@),
            r == code_points(b@),
            i <= left.len(),
            i <= right.len(),
            l.take(i as int) == r.take(i as int),
        decreases left.len() - i,
    {
        assert(l.take(i + 1) =~= l.take(i as int).push(l[i as int]));
        assert(r.take(i + 1) =~= r.take(i as int).push(r[i as int]));
        i = i + 1;
    }
    proof {
        lemma_lex_less_skip(l, r, i as int);
    }
    if i < right.len() {
        if i < left.len() {
            left[i] < right[i]
        } else {
            true
        }
    } else {
        false
    }
}

} // verus!
