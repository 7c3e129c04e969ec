//! Total orders, as comparisons whose result is negative, zero or positive.

use vstd::prelude::*;

use crate::text::chars_of;

verus! {

/// Numbers by size.
pub open spec fn compare_number(a: int, b: int) -> int {
    if a < b {
        -1
    } else if a > b {
        1
    } else {
        0
    }
}

/// Texts by their first differing character; a proper prefix comes first.
pub open spec fn compare_text(a: Seq<char>, b: Seq<char>) -> int
    decreases a.len(),
{
    if a.len() == 0 || b.len() == 0 {
        compare_number(a.len() as int, b.len() as int)
    } else if a[0] != b[0] {
        compare_number(a[0] as int, b[0] as int)
    } else {
        compare_text(a.drop_first(), b.drop_first())
    }
}

/// The first comparison, and where it finds no difference the second.
pub open spec fn lexical(first: int, second: int) -> int {
    if first != 0 {
        first
    } else {
        second
    }
}

pub fn compare_usize(a: usize, b: usize) -> (r: i8)
    ensures
        r == compare_number(a as int, b as int),
{
    if a < b {
        -1
    } else if a > b {
        1
    } else {
        0
    }
}

pub fn compare_strings(a: &str, b: &str) -> (r: i8)
    ensures
        r == compare_text(a@, b@),
{
    let x = chars_of(a);
    let y = chars_of(b);
    let mut i: usize = 0;
    assert(x@.skip(0) =~= x@);
    assert(y@.skip(0) =~= y@);
    while i < x.len() && i < y.len()
        invariant
            i <= x@.len(),
            i <= y@.len(),
            x@ == a@,
            y@ == b@,
            compare_text(a@, b@) == compare_text(x@.skip(i as int), y@.skip(i as int)),
        decreases x@.len() - i,
    {
        if x[i] != y[i] {
            assert(x@.skip(i as int)[0] == x@[i as int]);
            assert(y@.skip(i as int)[0] == y@[i as int]);
            return if x[i] < y[i] {
                -1
            } else {
                1
            };
        }
        assert(x@.skip(i as int).drop_first() =~= x@.skip(i + 1));
        assert(y@.skip(i as int).drop_first() =~= y@.skip(i + 1));
        i = i + 1;
    }
    compare_usize(x.len(), y.len())
}

/// `compare_text` is antisymmetric, and zero on equal texts only.
pub proof fn lemma_compare_text_antisymmetric(a: Seq<char>, b: Seq<char>)
    ensures
        compare_text(a, b) == -compare_text(b, a),
        compare_text(a, b) == 0 <==> a == b,
    decreases a.len(),
{
    if a.len() == 0 || b.len() == 0 {
        if a.len() == b.len() {
            assert(a =~= b);
        }
    } else if a[0] != b[0] {
    } else {
        lemma_compare_text_antisymmetric(a.drop_first(), b.drop_first());
        if a.drop_first() == b.drop_first() {
            assert(a =~= seq![a[0]] + a.drop_first());
            assert(b =~= seq![b[0]] + b.drop_first());
        }
    }
}

/// `compare_text` is transitive.
pub proof fn lemma_compare_text_transitive(a: Seq<char>, b: Seq<char>, c: Seq<char>)
    requires
        compare_text(a, b) <= 0,
        compare_text(b, c) <= 0,
    ensures
        compare_text(a, c) <= 0,
    decreases a.len(),
{
    if a.len() == 0 || b.len() == 0 || c.len() == 0 {
    } else if a[0] != b[0] || b[0] != c[0] {
    } else {
        lemma_compare_text_transitive(a.drop_first(), b.drop_first(), c.drop_first());
    }
}

/// Texts are ordered by their first difference, the character with the lower number first; where
/// one is the start of the other, the shorter comes first.
pub proof fn lemma_first_difference_decides(a: Seq<char>, b: Seq<char>, i: int)
    requires
        0 <= i <= a.len(),
        i <= b.len(),
        a.take(i) == b.take(i),
    ensures
        i < a.len() && i < b.len() && (a[i] as int) < b[i] as int ==> compare_text(a, b) < 0,
        i == a.len() && i < b.len() ==> compare_text(a, b) < 0,
        i == a.len() && i == b.len() ==> compare_text(a, b) == 0,
    decreases i,
{
    if i > 0 {
        assert(a[0] == a.take(i)[0] && b[0] == b.take(i)[0]);
        let (x, y) = (a.drop_first(), b.drop_first());
        assert(x.take(i - 1) =~= a.take(i).drop_first());
        assert(y.take(i - 1) =~= b.take(i).drop_first());
        lemma_first_difference_decides(x, y, i - 1);
    }
}

} // verus!
