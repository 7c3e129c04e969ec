//! The canonical order of findings: by file, start, end, rule and occurrence.

use vstd::prelude::*;

use crate::finding::Position;
use crate::order;
use crate::path;
use crate::path::{Component, Part};

verus! {

/// What the order of findings looks at.
#[verifier::ext_equal]
pub struct Place {
    pub file: Seq<Part>,
    pub start: Position,
    pub end: Position,
    pub rule_id: Seq<char>,
    pub occurrence: usize,
}

/// What the order of findings looks at.
pub struct PlaceKey {
    pub file: Vec<Component>,
    pub start: Position,
    pub end: Position,
    pub rule_id: String,
    pub occurrence: usize,
}

impl View for PlaceKey {
    type V = Place;

    open spec fn view(&self) -> Place {
        Place {
            file: path::parts(self.file@),
            start: self.start,
            end: self.end,
            rule_id: self.rule_id@,
            occurrence: self.occurrence,
        }
    }
}

/// The places held by a list of keys.
pub open spec fn places(s: Seq<PlaceKey>) -> Seq<Place> {
    s.map_values(|k: PlaceKey| k@)
}

/// Positions by line, then by column.
pub open spec fn compare_position(a: Position, b: Position) -> int {
    order::lexical(
        order::compare_number(a.line as int, b.line as int),
        order::compare_number(a.column as int, b.column as int),
    )
}

/// Places by file, start, end, rule and occurrence.
pub open spec fn compare_place(a: Place, b: Place) -> int {
    order::lexical(
        path::compare_parts(a.file, b.file),
        order::lexical(
            compare_position(a.start, b.start),
            order::lexical(
                compare_position(a.end, b.end),
                order::lexical(
                    order::compare_text(a.rule_id, b.rule_id),
                    order::compare_number(a.occurrence as int, b.occurrence as int),
                ),
            ),
        ),
    )
}

fn compare_positions(a: Position, b: Position) -> (r: i8)
    ensures
        r == compare_position(a, b),
{
    let c = order::compare_usize(a.line, b.line);
    if c != 0 {
        return c;
    }
    order::compare_usize(a.column, b.column)
}

/// Compare two places.
pub fn compare_keys(a: &PlaceKey, b: &PlaceKey) -> (r: i8)
    ensures
        r == compare_place(a@, b@),
{
    let c = path::compare_components(&a.file, &b.file);
    if c != 0 {
        return c;
    }
    let c = compare_positions(a.start, b.start);
    if c != 0 {
        return c;
    }
    let c = compare_positions(a.end, b.end);
    if c != 0 {
        return c;
    }
    let c = order::compare_strings(a.rule_id.as_str(), b.rule_id.as_str());
    if c != 0 {
        return c;
    }
    order::compare_usize(a.occurrence, b.occurrence)
}

/// `compare_place` is antisymmetric, and zero on equal places only.
pub proof fn lemma_compare_place_antisymmetric(a: Place, b: Place)
    ensures
        compare_place(a, b) == -compare_place(b, a),
        compare_place(a, b) == 0 <==> a == b,
{
    path::lemma_compare_parts_antisymmetric(a.file, b.file);
    order::lemma_compare_text_antisymmetric(a.rule_id, b.rule_id);
}

/// `compare_place` is transitive.
pub proof fn lemma_compare_place_transitive(a: Place, b: Place, c: Place)
    requires
        compare_place(a, b) <= 0,
        compare_place(b, c) <= 0,
    ensures
        compare_place(a, c) <= 0,
{
    path::lemma_compare_parts_antisymmetric(a.file, b.file);
    path::lemma_compare_parts_antisymmetric(b.file, c.file);
    path::lemma_compare_parts_antisymmetric(a.file, c.file);
    order::lemma_compare_text_antisymmetric(a.rule_id, b.rule_id);
    order::lemma_compare_text_antisymmetric(b.rule_id, c.rule_id);
    order::lemma_compare_text_antisymmetric(a.rule_id, c.rule_id);
    path::lemma_compare_parts_transitive(a.file, b.file, c.file);
    if path::compare_parts(a.file, c.file) == 0 {
        // Equal files on both sides leave no room for a different one between them.
        if path::compare_parts(a.file, b.file) != 0 {
            path::lemma_compare_parts_transitive(c.file, a.file, b.file);
        }
        if order::compare_text(a.rule_id, b.rule_id) <= 0 && order::compare_text(
            b.rule_id,
            c.rule_id,
        ) <= 0 {
            order::lemma_compare_text_transitive(a.rule_id, b.rule_id, c.rule_id);
            if order::compare_text(a.rule_id, c.rule_id) == 0 && order::compare_text(
                a.rule_id,
                b.rule_id,
            ) != 0 {
                order::lemma_compare_text_transitive(c.rule_id, a.rule_id, b.rule_id);
            }
        }
    }
}

// ---------------------------------------------------------------------------
// The stable order
// ---------------------------------------------------------------------------

/// `x` put into an order of positions, behind every position whose key is not greater
/// than its own.
pub open spec fn inserted(keys: Seq<Place>, ord: Seq<int>, x: int) -> Seq<int>
    decreases ord.len(),
{
    if ord.len() == 0 || compare_place(keys[ord.last()], keys[x]) <= 0 {
        ord.push(x)
    } else {
        inserted(keys, ord.drop_last(), x).push(ord.last())
    }
}

/// The first `n` positions, sorted by their keys; equal keys keep their order.
pub open spec fn order_upto(keys: Seq<Place>, n: nat) -> Seq<int>
    decreases n,
{
    if n == 0 {
        seq![]
    } else {
        inserted(keys, order_upto(keys, (n - 1) as nat), n - 1)
    }
}

/// The positions of `keys`, sorted by their keys; equal keys keep their order.
pub open spec fn stable_order(keys: Seq<Place>) -> Seq<int> {
    order_upto(keys, keys.len())
}

/// The items of `s` in the given order of positions.
pub open spec fn arranged<A>(s: Seq<A>, ord: Seq<int>) -> Seq<A> {
    ord.map_values(|i: int| s[i])
}

/// Is `ord` made of positions below `n`, each of them once?
pub open spec fn is_permutation(ord: Seq<int>, n: nat) -> bool {
    &&& ord.len() == n
    &&& ord.no_duplicates()
    &&& forall|i: int| 0 <= i < ord.len() ==> 0 <= #[trigger] ord[i] < n
}

/// Do the keys never decrease along `ord`, and do equal keys stand in the order of their
/// positions?
pub open spec fn is_sorted(keys: Seq<Place>, ord: Seq<int>) -> bool {
    forall|i: int, j: int|
        #![trigger ord[i], ord[j]]
        0 <= i < j < ord.len() ==> {
            &&& compare_place(keys[ord[i]], keys[ord[j]]) <= 0
            &&& compare_place(keys[ord[i]], keys[ord[j]]) == 0 ==> ord[i] < ord[j]
        }
}

proof fn lemma_inserted_at(keys: Seq<Place>, ord: Seq<int>, x: int, p: int)
    requires
        0 <= p <= ord.len(),
        forall|i: int| p <= i < ord.len() ==> compare_place(keys[#[trigger] ord[i]], keys[x]) > 0,
        p > 0 ==> compare_place(keys[ord[p - 1]], keys[x]) <= 0,
    ensures
        inserted(keys, ord, x) == ord.insert(p, x),
    decreases ord.len(),
{
    if p == ord.len() {
        assert(ord.push(x) =~= ord.insert(p, x));
    } else {
        let init = ord.drop_last();
        assert forall|i: int| p <= i < init.len() implies compare_place(
            keys[#[trigger] init[i]],
            keys[x],
        ) > 0 by {
            assert(init[i] == ord[i]);
        }
        if p > 0 {
            assert(init[p - 1] == ord[p - 1]);
        }
        lemma_inserted_at(keys, init, x, p);
        assert(init.insert(p, x).push(ord.last()) =~= ord.insert(p, x));
    }
}

/// Where `inserted` puts its position.
proof fn lemma_inserted_place(keys: Seq<Place>, ord: Seq<int>, x: int) -> (p: int)
    ensures
        0 <= p <= ord.len(),
        inserted(keys, ord, x) == ord.insert(p, x),
        forall|i: int| p <= i < ord.len() ==> compare_place(keys[#[trigger] ord[i]], keys[x]) > 0,
        p > 0 ==> compare_place(keys[ord[p - 1]], keys[x]) <= 0,
    decreases ord.len(),
{
    if ord.len() == 0 || compare_place(keys[ord.last()], keys[x]) <= 0 {
        lemma_inserted_at(keys, ord, x, ord.len() as int);
        ord.len() as int
    } else {
        let init = ord.drop_last();
        let p = lemma_inserted_place(keys, init, x);
        assert forall|i: int| p <= i < ord.len() implies compare_place(
            keys[#[trigger] ord[i]],
            keys[x],
        ) > 0 by {
            if i < init.len() {
                assert(init[i] == ord[i]);
            }
        }
        if p > 0 {
            assert(init[p - 1] == ord[p - 1]);
        }
        lemma_inserted_at(keys, ord, x, p);
        p
    }
}

/// The stable order of the first `n` keys is a permutation, and sorted.
pub proof fn lemma_order_upto(keys: Seq<Place>, n: nat)
    requires
        n <= keys.len(),
    ensures
        is_permutation(order_upto(keys, n), n),
        is_sorted(keys, order_upto(keys, n)),
    decreases n,
{
    if n > 0 {
        let ord = order_upto(keys, (n - 1) as nat);
        let x = n - 1;
        lemma_order_upto(keys, (n - 1) as nat);
        let p = lemma_inserted_place(keys, ord, x);
        let res = ord.insert(p, x);
        assert forall|i: int| 0 <= i < res.len() implies 0 <= #[trigger] res[i] < n by {
            if i < p {
                assert(res[i] == ord[i]);
            } else if i > p {
                assert(res[i] == ord[i - 1]);
            }
        }
        assert(res.no_duplicates()) by {
            assert forall|i: int, j: int| 0 <= i < res.len() && 0 <= j < res.len() && i != j implies
                res[i] != res[j] by {
                let a = if i < p { i } else { i - 1 };
                let b = if j < p { j } else { j - 1 };
                if i != p {
                    assert(res[i] == ord[a]);
                }
                if j != p {
                    assert(res[j] == ord[b]);
                }
            }
        }
        assert forall|i: int, j: int|
            #![trigger res[i], res[j]]
            0 <= i < j < res.len() implies {
            &&& compare_place(keys[res[i]], keys[res[j]]) <= 0
            &&& compare_place(keys[res[i]], keys[res[j]]) == 0 ==> res[i] < res[j]
        } by {
            let a = if i < p { i } else { i - 1 };
            let b = if j < p { j } else { j - 1 };
            if i != p {
                assert(res[i] == ord[a]);
            }
            if j != p {
                assert(res[j] == ord[b]);
            }
            if i == p {
                lemma_compare_place_antisymmetric(keys[x], keys[ord[b]]);
            } else if j == p {
                assert(compare_place(keys[ord[p - 1]], keys[x]) <= 0);
                if a < p - 1 {
                    assert(compare_place(keys[ord[a]], keys[ord[p - 1]]) <= 0);
                    lemma_compare_place_transitive(keys[ord[a]], keys[ord[p - 1]], keys[x]);
                }
            }
        }
    }
}

/// The stable order is a permutation, and sorted.
pub proof fn lemma_stable_order(keys: Seq<Place>)
    ensures
        is_permutation(stable_order(keys), keys.len()),
        is_sorted(keys, stable_order(keys)),
{
    lemma_order_upto(keys, keys.len());
}

/// Keys that are sorted already stay where they are.
pub proof fn lemma_order_of_sorted(keys: Seq<Place>, n: nat)
    requires
        n <= keys.len(),
        forall|i: int, j: int|
            #![trigger keys[i], keys[j]]
            0 <= i < j < keys.len() ==> compare_place(keys[i], keys[j]) <= 0,
    ensures
        order_upto(keys, n) == Seq::new(n, |i: int| i),
    decreases n,
{
    if n > 0 {
        let m = (n - 1) as nat;
        lemma_order_of_sorted(keys, m);
        let ord = order_upto(keys, m);
        if m > 0 {
            assert(ord.last() == m - 1);
            assert(compare_place(keys[m - 1], keys[m as int]) <= 0);
        }
        assert(ord.push(m as int) =~= Seq::new(n, |i: int| i));
    } else {
        assert(order_upto(keys, 0) =~= Seq::new(0, |i: int| i));
    }
}

proof fn lemma_arranged_multiset<A>(s: Seq<A>, keys: Seq<Place>, n: nat)
    requires
        n <= keys.len(),
        keys.len() == s.len(),
    ensures
        arranged(s, order_upto(keys, n)).to_multiset() == s.take(n as int).to_multiset(),
    decreases n,
{
    broadcast use vstd::seq_lib::group_to_multiset_ensures;

    if n == 0 {
        assert(arranged(s, order_upto(keys, 0)) =~= s.take(0));
    } else {
        let m = (n - 1) as nat;
        let ord = order_upto(keys, m);
        lemma_arranged_multiset(s, keys, m);
        let p = lemma_inserted_place(keys, ord, m as int);
        assert(arranged(s, ord.insert(p, m as int)) =~= arranged(s, ord).insert(p, s[m as int]));
        vstd::seq_lib::to_multiset_insert(arranged(s, ord), p, s[m as int]);
        assert(s.take(n as int) =~= s.take(m as int).push(s[m as int]));
        vstd::seq_lib::to_multiset_build(s.take(m as int), s[m as int]);
    }
}

/// Sorting loses no item and invents none.
pub proof fn lemma_arranged_same_items<A>(s: Seq<A>, keys: Seq<Place>)
    requires
        keys.len() == s.len(),
    ensures
        arranged(s, stable_order(keys)).to_multiset() == s.to_multiset(),
        arranged(s, stable_order(keys)).len() == s.len(),
{
    lemma_arranged_multiset(s, keys, keys.len());
    lemma_stable_order(keys);
    assert(s.take(s.len() as int) =~= s);
}

/// A permutation reaches every position.
pub proof fn lemma_permutation_covers(ord: Seq<int>, n: nat, i: int)
    requires
        is_permutation(ord, n),
        0 <= i < n,
    ensures
        ord.contains(i),
{
    let all = vstd::set_lib::set_int_range(0, n as int);
    let seen = ord.to_set();
    vstd::set_lib::lemma_int_range(0, n as int);
    ord.unique_seq_to_set();
    vstd::seq_lib::seq_to_set_is_finite(ord);
    assert(seen.subset_of(all)) by {
        assert forall|x: int| seen.contains(x) implies all.contains(x) by {
            let k = choose|k: int| 0 <= k < ord.len() && ord[k] == x;
            assert(0 <= ord[k] < n);
        }
    }
    vstd::set_lib::lemma_subset_equality(seen, all);
    assert(seen.contains(i));
}

/// Where an arrangement leaves the keys strictly ascending, it is the stable order.
pub proof fn lemma_strict_order_unique(keys: Seq<Place>, w: Seq<int>)
    requires
        is_permutation(w, keys.len()),
        forall|i: int, j: int|
            #![trigger w[i], w[j]]
            0 <= i < j < w.len() ==> compare_place(keys[w[i]], keys[w[j]]) < 0,
    ensures
        stable_order(keys) == w,
{
    lemma_stable_order(keys);
    if keys.len() > 0 {
        lemma_strict_order_upto(keys, w, keys.len() - 1);
    }
    assert(stable_order(keys) =~= w);
}

proof fn lemma_strict_order_upto(keys: Seq<Place>, w: Seq<int>, i: int)
    requires
        0 <= i < keys.len(),
        is_permutation(w, keys.len()),
        forall|i: int, j: int|
            #![trigger w[i], w[j]]
            0 <= i < j < w.len() ==> compare_place(keys[w[i]], keys[w[j]]) < 0,
    ensures
        forall|k: int| 0 <= k <= i ==> stable_order(keys)[k] == w[k],
    decreases i,
{
    let ord = stable_order(keys);
    lemma_stable_order(keys);
    if i > 0 {
        lemma_strict_order_upto(keys, w, i - 1);
    }
    if ord[i] != w[i] {
        lemma_permutation_covers(w, keys.len(), ord[i]);
        lemma_permutation_covers(ord, keys.len(), w[i]);
        let a = w.index_of(ord[i]);
        let b = ord.index_of(w[i]);
        assert(w[a] == ord[i] && ord[b] == w[i]);
        assert(a > i) by {
            if a < i {
                assert(ord[a] == w[a]);
            }
        }
        assert(b > i) by {
            if b < i {
                assert(ord[b] == w[b]);
            }
        }
        assert(compare_place(keys[w[i]], keys[w[a]]) < 0);
        assert(compare_place(keys[ord[i]], keys[ord[b]]) <= 0);
        lemma_compare_place_antisymmetric(keys[w[i]], keys[w[a]]);
    }
}

/// The place of position `i` in an order of positions.
pub open spec fn rank_in(ord: Seq<int>, i: int) -> int {
    ord.index_of(i)
}

/// An order of positions, as integers.
pub open spec fn as_ints(s: Seq<usize>) -> Seq<int> {
    s.map_values(|i: usize| i as int)
}

/// The positions of `keys`, sorted by their keys; equal keys keep their order.
pub fn sorted_positions(keys: &Vec<PlaceKey>) -> (r: Vec<usize>)
    ensures
        as_ints(r@) == stable_order(places(keys@)),
        r@.len() == keys@.len(),
        forall|i: int| 0 <= i < r@.len() ==> #[trigger] r@[i] < keys@.len(),
{
    let ghost model = places(keys@);
    let mut ord: Vec<usize> = Vec::new();
    assert(as_ints(ord@) =~= order_upto(model, 0));
    for x in 0..keys.len()
        invariant
            model == places(keys@),
            as_ints(ord@) == order_upto(model, x as nat),
            ord@.len() == x,
    {
        let ghost cur = as_ints(ord@);
        proof {
            lemma_order_upto(model, x as nat);
        }
        // The first position whose key is greater than the new one.
        let mut lo: usize = 0;
        let mut hi: usize = ord.len();
        while lo < hi
            invariant
                model == places(keys@),
                x < keys@.len(),
                cur == as_ints(ord@),
                is_permutation(cur, x as nat),
                is_sorted(model, cur),
                lo <= hi <= ord@.len(),
                forall|i: int|
                    hi <= i < cur.len() ==> compare_place(model[#[trigger] cur[i]], model[x as int])
                        > 0,
                lo > 0 ==> compare_place(model[cur[lo - 1]], model[x as int]) <= 0,
            decreases hi - lo,
        {
            let mid: usize = lo + (hi - lo) / 2;
            assert(cur[mid as int] == ord@[mid as int]);
            let c = compare_keys(&keys[ord[mid]], &keys[x]);
            if c <= 0 {
                lo = mid + 1;
            } else {
                proof {
                    assert forall|i: int| mid <= i < cur.len() implies compare_place(
                        model[#[trigger] cur[i]],
                        model[x as int],
                    ) > 0 by {
                        if i > mid {
                            let (a, b, k) = (model[cur[mid as int]], model[cur[i]], model[x as int]);
                            assert(compare_place(a, b) <= 0);
                            if compare_place(b, k) <= 0 {
                                lemma_compare_place_transitive(a, b, k);
                            }
                        }
                    }
                }
                hi = mid;
            }
        }
        proof {
            lemma_inserted_at(model, cur, x as int, lo as int);
        }
        ord.insert(lo, x);
        assert(as_ints(ord@) =~= cur.insert(lo as int, x as int));
    }
    proof {
        lemma_stable_order(model);
        assert forall|i: int| 0 <= i < ord@.len() implies #[trigger] ord@[i] < keys@.len() by {
            assert(as_ints(ord@)[i] == ord@[i]);
        }
    }
    ord
}

// ---------------------------------------------------------------------------
// Ranks
// ---------------------------------------------------------------------------

/// Does position `j` come before position `i` in the stable order of the keys?
pub open spec fn precedes(keys: Seq<Place>, j: int, i: int) -> bool {
    compare_place(keys[j], keys[i]) < 0 || compare_place(keys[j], keys[i]) == 0 && j < i
}

/// The positions that hold `x` and come before position `i` in the stable order.
pub open spec fn equals_before(keys: Seq<Place>, list: Seq<Seq<char>>, i: int, x: Seq<char>) -> Set<
    int,
> {
    vstd::set_lib::set_int_range(0, keys.len() as int).filter(
        |j: int| list[j] == x && precedes(keys, j, i),
    )
}

/// The ranks in the stable order follow `precedes`.
pub proof fn lemma_rank_order(keys: Seq<Place>, j: int, i: int)
    requires
        0 <= i < keys.len(),
        0 <= j < keys.len(),
        i != j,
    ensures
        0 <= rank_in(stable_order(keys), i) < keys.len(),
        stable_order(keys)[rank_in(stable_order(keys), i)] == i,
        rank_in(stable_order(keys), j) < rank_in(stable_order(keys), i) <==> precedes(keys, j, i),
{
    let ord = stable_order(keys);
    lemma_stable_order(keys);
    lemma_permutation_covers(ord, keys.len(), i);
    lemma_permutation_covers(ord, keys.len(), j);
    let (a, b) = (rank_in(ord, j), rank_in(ord, i));
    assert(ord[a] == j && ord[b] == i);
    lemma_compare_place_antisymmetric(keys[i], keys[j]);
    if a < b {
        assert(compare_place(keys[ord[a]], keys[ord[b]]) <= 0);
    } else {
        assert(b < a);
        assert(compare_place(keys[ord[b]], keys[ord[a]]) <= 0);
    }
}

spec fn held_upto(ord: Seq<int>, list: Seq<Seq<char>>, r: int, x: Seq<char>) -> Set<int>
    decreases r,
{
    if r <= 0 {
        Set::empty()
    } else if list[ord[r - 1]] == x {
        held_upto(ord, list, r - 1, x).insert(ord[r - 1])
    } else {
        held_upto(ord, list, r - 1, x)
    }
}

proof fn lemma_held_upto(ord: Seq<int>, list: Seq<Seq<char>>, r: int, x: Seq<char>)
    requires
        is_permutation(ord, list.len()),
        0 <= r <= ord.len(),
    ensures
        held_upto(ord, list, r, x).finite(),
        held_upto(ord, list, r, x).len() == crate::finding::count_of(arranged(list, ord).take(r), x),
        forall|j: int| #[trigger]
            held_upto(ord, list, r, x).contains(j) <==> exists|k: int|
                0 <= k < r && #[trigger] ord[k] == j && list[j] == x,
    decreases r,
{
    if r > 0 {
        lemma_held_upto(ord, list, r - 1, x);
        let items = arranged(list, ord);
        let before = held_upto(ord, list, r - 1, x);
        let now = held_upto(ord, list, r, x);
        assert(items.take(r).drop_last() =~= items.take(r - 1));
        assert(items.take(r).last() == list[ord[r - 1]]);
        assert(!before.contains(ord[r - 1])) by {
            if before.contains(ord[r - 1]) {
                let k = choose|k: int| 0 <= k < r - 1 && #[trigger] ord[k] == ord[r - 1];
                assert(ord[k] != ord[r - 1]);
            }
        }
        assert forall|j: int| #[trigger] now.contains(j) <==> exists|k: int|
            0 <= k < r && #[trigger] ord[k] == j && list[j] == x by {
            if now.contains(j) {
                if before.contains(j) {
                    let k = choose|k: int| 0 <= k < r - 1 && #[trigger] ord[k] == j && list[j] == x;
                    assert(ord[k] == j);
                } else {
                    assert(ord[r - 1] == j);
                }
            }
            if exists|k: int| 0 <= k < r && #[trigger] ord[k] == j && list[j] == x {
                let k = choose|k: int| 0 <= k < r && #[trigger] ord[k] == j && list[j] == x;
                if k < r - 1 {
                    assert(ord[k] == j);
                    assert(before.contains(j));
                }
            }
        }
    }
}

/// How many equal items come before a position in the stable order, as a set.
pub proof fn lemma_count_before(keys: Seq<Place>, list: Seq<Seq<char>>, i: int, x: Seq<char>)
    requires
        keys.len() == list.len(),
        0 <= i < keys.len(),
    ensures
        equals_before(keys, list, i, x).finite(),
        equals_before(keys, list, i, x).len() == crate::finding::count_of(
            arranged(list, stable_order(keys)).take(rank_in(stable_order(keys), i)),
            x,
        ),
{
    let ord = stable_order(keys);
    let n = keys.len();
    lemma_stable_order(keys);
    lemma_permutation_covers(ord, n, i);
    let r = rank_in(ord, i);
    lemma_held_upto(ord, list, r, x);
    let a = held_upto(ord, list, r, x);
    let b = equals_before(keys, list, i, x);
    vstd::set_lib::lemma_int_range(0, n as int);
    assert forall|j: int| a.contains(j) <==> b.contains(j) by {
        if a.contains(j) {
            let k = choose|k: int| 0 <= k < r && #[trigger] ord[k] == j && list[j] == x;
            assert(0 <= ord[k] < n);
            assert(ord[r] == i);
            assert(ord[k] != ord[r]);
            lemma_rank_order(keys, j, i);
            assert(rank_in(ord, j) == k) by {
                lemma_permutation_covers(ord, n, j);
                let q = rank_in(ord, j);
                assert(ord[q] == j);
            }
        }
        if b.contains(j) {
            if j == i {
                lemma_compare_place_antisymmetric(keys[i], keys[i]);
            } else {
                lemma_rank_order(keys, j, i);
                lemma_permutation_covers(ord, n, j);
                assert(ord[rank_in(ord, j)] == j);
            }
        }
    }
    assert(a =~= b);
}

/// Findings are ordered by file, then by where they start, by line before column, then by where
/// they end, then by rule, and then by occurrence.
pub proof fn lemma_place_order(a: Place, b: Place)
    ensures
        path::compare_parts(a.file, b.file) < 0 ==> compare_place(a, b) < 0,
        a.file == b.file ==> {
            &&& a.start.line < b.start.line ==> compare_place(a, b) < 0
            &&& a.start.line == b.start.line && a.start.column < b.start.column ==> compare_place(
                a,
                b,
            ) < 0
            &&& a.start == b.start ==> {
                &&& a.end.line < b.end.line ==> compare_place(a, b) < 0
                &&& a.end.line == b.end.line && a.end.column < b.end.column ==> compare_place(a, b)
                    < 0
                &&& a.end == b.end && order::compare_text(a.rule_id, b.rule_id) < 0
                    ==> compare_place(a, b) < 0
                &&& a.end == b.end && a.rule_id == b.rule_id && a.occurrence < b.occurrence
                    ==> compare_place(a, b) < 0
            }
        },
{
    path::lemma_compare_parts_antisymmetric(a.file, b.file);
    order::lemma_compare_text_antisymmetric(a.rule_id, b.rule_id);
}

} // verus!
