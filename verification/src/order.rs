//! Stable sorting by a key made of a rank and a text, ascending or descending.
use vstd::prelude::*;

use crate::text::{compare_str, lemma_seq_less_irreflexive, lemma_seq_less_total, lemma_seq_less_transitive, seq_less};

verus! {

/// A sort key: first the rank, then the text in lexicographic order.
pub struct SortKey {
    pub rank: u8,
    pub text: String,
}

impl View for SortKey {
    type V = (u8, Seq<char>);

    open spec fn view(&self) -> (u8, Seq<char>) {
        (self.rank, self.text@)
    }
}

/// The models of a sequence of keys.
pub open spec fn keys_model(v: Seq<SortKey>) -> Seq<(u8, Seq<char>)> {
    Seq::new(v.len(), |i: int| v[i]@)
}

/// Key `a` sorts strictly before key `b`.
pub open spec fn key_less(a: (u8, Seq<char>), b: (u8, Seq<char>)) -> bool {
    a.0 < b.0 || (a.0 == b.0 && seq_less(a.1, b.1))
}

/// Key `a` sorts strictly before key `b` in the given direction.
pub open spec fn dir_less(a: (u8, Seq<char>), b: (u8, Seq<char>), ascending: bool) -> bool {
    if ascending {
        key_less(a, b)
    } else {
        key_less(b, a)
    }
}

/// In a stable sort, position `i` comes before position `j`: its key sorts
/// strictly earlier, or the keys are equal and `i` came first.
pub open spec fn comes_before(keys: Seq<(u8, Seq<char>)>, ascending: bool, i: int, j: int) -> bool {
    dir_less(keys[i], keys[j], ascending) || (keys[i] == keys[j] && i < j)
}

/// `order` lists the positions `0..keys.len()`, each once, in stable sorted order.
pub open spec fn is_stable_order(order: Seq<usize>, keys: Seq<(u8, Seq<char>)>, ascending: bool) -> bool {
    &&& order.len() == keys.len()
    &&& forall|a: int| 0 <= a < order.len() ==> #[trigger] order[a] < keys.len()
    &&& forall|a: int, b: int|
        0 <= a < b < order.len() ==> comes_before(keys, ascending, #[trigger] order[a] as int, #[trigger] order[b] as int)
}

/// Facts about the key order: it is a strict total order.
pub proof fn lemma_key_order(a: (u8, Seq<char>), b: (u8, Seq<char>), c: (u8, Seq<char>))
    ensures
        !key_less(a, a),
        a != b ==> key_less(a, b) || key_less(b, a),
        !(key_less(a, b) && key_less(b, a)),
        key_less(a, b) && key_less(b, c) ==> key_less(a, c),
{
    lemma_seq_less_irreflexive(a.1);
    lemma_seq_less_total(a.1, b.1);
    if seq_less(a.1, b.1) && seq_less(b.1, c.1) {
        lemma_seq_less_transitive(a.1, b.1, c.1);
    }
}

/// Stable order entails distinct positions.
pub proof fn lemma_stable_order_distinct(order: Seq<usize>, keys: Seq<(u8, Seq<char>)>, ascending: bool)
    requires
        is_stable_order(order, keys, ascending),
    ensures
        forall|a: int, b: int| 0 <= a < b < order.len() ==> order[a] != order[b],
{
    assert forall|a: int, b: int| 0 <= a < b < order.len() implies order[a] != order[b] by {
        let i = order[a] as int;
        lemma_key_order(keys[i], keys[i], keys[i]);
        assert(comes_before(keys, ascending, order[a] as int, order[b] as int));
    }
}

/// Compares two keys in the given direction.
fn key_dir_less(a: &SortKey, b: &SortKey, ascending: bool) -> (r: bool)
    ensures
        r == dir_less(a@, b@, ascending),
{
    let (x, y) = if ascending { (a, b) } else { (b, a) };
    if x.rank != y.rank {
        x.rank < y.rank
    } else {
        compare_str(x.text.as_str(), y.text.as_str()) == -1
    }
}

/// Where insertion sort puts position `j` into `o`, searching from `p`: before
/// the first element whose key sorts strictly after `keys[j]`, else at the end.
pub open spec fn insert_pos(keys: Seq<(u8, Seq<char>)>, ascending: bool, o: Seq<usize>, j: int, p: int) -> int
    decreases o.len() - p,
{
    if p < 0 || p >= o.len() {
        o.len() as int
    } else if dir_less(keys[j], keys[o[p] as int], ascending) {
        p
    } else {
        insert_pos(keys, ascending, o, j, p + 1)
    }
}

/// The positions `0..n` of `keys` after insertion sort.
pub open spec fn sorted_prefix(keys: Seq<(u8, Seq<char>)>, ascending: bool, n: int) -> Seq<usize>
    decreases n,
{
    if n <= 0 {
        Seq::empty()
    } else {
        let o = sorted_prefix(keys, ascending, n - 1);
        o.insert(insert_pos(keys, ascending, o, n - 1, 0), (n - 1) as usize)
    }
}

/// The positions of `keys` in stably sorted order (see [`is_stable_order`]).
pub open spec fn sorted_positions(keys: Seq<(u8, Seq<char>)>, ascending: bool) -> Seq<usize> {
    sorted_prefix(keys, ascending, keys.len() as int)
}

/// The insertion position lies within the list, with every element before it not
/// sorting after the inserted key and the element at it sorting after.
proof fn lemma_insert_pos(keys: Seq<(u8, Seq<char>)>, ascending: bool, o: Seq<usize>, j: int, p: int)
    requires
        0 <= p <= o.len(),
        0 <= j < keys.len(),
        forall|a: int| 0 <= a < o.len() ==> #[trigger] o[a] < keys.len(),
    ensures
        p <= insert_pos(keys, ascending, o, j, p) <= o.len(),
        forall|a: int| p <= a < insert_pos(keys, ascending, o, j, p) ==> !dir_less(keys[j], keys[#[trigger] o[a] as int], ascending),
        insert_pos(keys, ascending, o, j, p) < o.len() ==> dir_less(
            keys[j],
            keys[o[insert_pos(keys, ascending, o, j, p)] as int],
            ascending,
        ),
    decreases o.len() - p,
{
    if p < o.len() && !dir_less(keys[j], keys[o[p] as int], ascending) {
        lemma_insert_pos(keys, ascending, o, j, p + 1);
    }
}

/// Insertion sort yields a stable order: every position once, keys in order,
/// equal keys in their original order.
pub proof fn lemma_sorted_prefix_stable(keys: Seq<(u8, Seq<char>)>, ascending: bool, n: int)
    requires
        0 <= n <= keys.len(),
        keys.len() <= usize::MAX,
    ensures
        sorted_prefix(keys, ascending, n).len() == n,
        forall|a: int| 0 <= a < n ==> #[trigger] sorted_prefix(keys, ascending, n)[a] < n,
        forall|a: int, b: int|
            0 <= a < b < n ==> comes_before(
                keys,
                ascending,
                #[trigger] sorted_prefix(keys, ascending, n)[a] as int,
                #[trigger] sorted_prefix(keys, ascending, n)[b] as int,
            ),
    decreases n,
{
    if n > 0 {
        lemma_sorted_prefix_stable(keys, ascending, n - 1);
        let ks = keys;
        let j = n - 1;
        let old_order = sorted_prefix(keys, ascending, n - 1);
        lemma_insert_pos(keys, ascending, old_order, j, 0);
        let p = insert_pos(keys, ascending, old_order, j, 0);
        let order = old_order.insert(p, j as usize);
        assert(order == sorted_prefix(keys, ascending, n));
        assert forall|a: int| 0 <= a < p implies comes_before(ks, ascending, #[trigger] old_order[a] as int, j) by {
            let e = old_order[a] as int;
            lemma_key_order(ks[e], ks[j], ks[j]);
        }
        assert forall|b: int| p <= b < old_order.len() implies comes_before(ks, ascending, j, #[trigger] old_order[b] as int) by {
            let first = old_order[p] as int;
            let e = old_order[b] as int;
            if b > p {
                assert(comes_before(ks, ascending, old_order[p] as int, old_order[b] as int));
                if ascending {
                    lemma_key_order(ks[j], ks[first], ks[e]);
                } else {
                    lemma_key_order(ks[e], ks[first], ks[j]);
                }
            }
        }
        assert forall|a: int, b: int| 0 <= a < b < order.len() implies comes_before(
            ks,
            ascending,
            #[trigger] order[a] as int,
            #[trigger] order[b] as int,
        ) by {
            if a < p && b < p {
                assert(order[a] == old_order[a] && order[b] == old_order[b]);
            } else if a < p && b == p {
                assert(order[a] == old_order[a]);
            } else if a < p && b > p {
                assert(order[a] == old_order[a] && order[b] == old_order[b - 1]);
            } else if a == p {
                assert(order[b] == old_order[b - 1]);
            } else {
                assert(order[a] == old_order[a - 1] && order[b] == old_order[b - 1]);
            }
        }
        assert forall|a: int| 0 <= a < order.len() implies #[trigger] order[a] < n by {
            if a < p {
                assert(order[a] == old_order[a]);
            } else if a > p {
                assert(order[a] == old_order[a - 1]);
            }
        }
    }
}

/// Sorting by rank and text yields a stable order of all positions.
pub proof fn lemma_sorted_positions_stable(keys: Seq<(u8, Seq<char>)>, ascending: bool)
    requires
        keys.len() <= usize::MAX,
    ensures
        is_stable_order(sorted_positions(keys, ascending), keys, ascending),
{
    lemma_sorted_prefix_stable(keys, ascending, keys.len() as int);
}

/// Insertion sort: the positions of `keys` in stable sorted order, ascending or
/// descending (equal keys keep their order either way).
pub fn stable_order(keys: &Vec<SortKey>, ascending: bool) -> (r: Vec<usize>)
    ensures
        r@ == sorted_positions(keys_model(keys@), ascending),
        is_stable_order(r@, keys_model(keys@), ascending),
{
    let ghost ks = keys_model(keys@);
    let n = keys.len();
    proof {
        lemma_sorted_positions_stable(ks, ascending);
    }
    let mut order: Vec<usize> = Vec::new();
    let mut j: usize = 0;
    while j < keys.len()
        invariant
            ks == keys_model(keys@),
            n == keys@.len(),
            j <= keys@.len(),
            order@ == sorted_prefix(ks, ascending, j as int),
        decreases keys.len() - j,
    {
        proof {
            lemma_sorted_prefix_stable(ks, ascending, j as int);
        }
        let mut p: usize = 0;
        while p < order.len() && !key_dir_less(&keys[j], &keys[order[p]], ascending)
            invariant
                ks == keys_model(keys@),
                j < keys@.len(),
                p <= order@.len(),
                forall|a: int| 0 <= a < order@.len() ==> #[trigger] order@[a] < j,
                insert_pos(ks, ascending, order@, j as int, 0) == insert_pos(ks, ascending, order@, j as int, p as int),
            decreases order.len() - p,
        {
            p = p + 1;
        }
        order.insert(p, j);
        j = j + 1;
    }
    order
}

} // verus!
