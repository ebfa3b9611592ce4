//! Stable ordering of positions by a text key (a SHA), ties by position.

use vstd::prelude::*;
use crate::text::{chars_eq, chars_less, lemma_str_less_total, lemma_str_less_trans, str_less};

verus! {

/// Position `a` sorts before position `b`: by key, ties by position.
pub open spec fn key_before(keys: Seq<Seq<char>>, a: usize, b: usize) -> bool {
    str_less(keys[a as int], keys[b as int]) || (keys[a as int] == keys[b as int] && a < b)
}

/// Inserts `x` into `sorted` after the last position that sorts before it.
pub open spec fn insert_by_key(keys: Seq<Seq<char>>, sorted: Seq<usize>, x: usize) -> Seq<usize>
    decreases sorted.len(),
{
    if sorted.len() == 0 {
        seq![x]
    } else if key_before(keys, sorted.last(), x) {
        sorted.push(x)
    } else {
        insert_by_key(keys, sorted.drop_last(), x).push(sorted.last())
    }
}

/// `idx` sorted by key, ties in their order in `idx` (a stable sort).
pub open spec fn sort_by_key(keys: Seq<Seq<char>>, idx: Seq<usize>) -> Seq<usize>
    decreases idx.len(),
{
    if idx.len() == 0 {
        Seq::empty()
    } else {
        insert_by_key(keys, sort_by_key(keys, idx.drop_last()), idx.last())
    }
}

/// Stable insertion sort of the positions `idx` by their keys.
pub fn sort_by_keys(key_chars: &Vec<Vec<char>>, Ghost(keys): Ghost<Seq<Seq<char>>>, idx: &Vec<usize>) -> (sorted: Vec<usize>)
    requires
        key_chars.len() == keys.len(),
        forall|i: int| 0 <= i < keys.len() ==> #[trigger] key_chars[i]@ == keys[i],
        forall|p: int| 0 <= p < idx.len() ==> #[trigger] idx[p] < keys.len(),
    ensures
        sorted@ == sort_by_key(keys, idx@),
{
    let mut v: Vec<usize> = Vec::new();
    let mut k: usize = 0;
    while k < idx.len()
        invariant
            key_chars.len() == keys.len(),
            forall|i: int| 0 <= i < keys.len() ==> #[trigger] key_chars[i]@ == keys[i],
            forall|p: int| 0 <= p < idx.len() ==> #[trigger] idx[p] < keys.len(),
            k <= idx.len(),
            v@ == sort_by_key(keys, idx@.take(k as int)),
            forall|p: int| 0 <= p < v.len() ==> #[trigger] v[p] < keys.len(),
        decreases idx.len() - k,
    {
        let x = idx[k];
        let ghost sorted = v@;
        proof {
            assert(idx@.take(k as int + 1).drop_last() == idx@.take(k as int));
            assert(sorted.take(sorted.len() as int) == sorted);
            assert(sorted.skip(sorted.len() as int) =~= Seq::<usize>::empty());
        }
        v.push(x);
        let mut j: usize = v.len() - 1;
        loop
            invariant
                key_chars.len() == keys.len(),
                forall|i: int| 0 <= i < keys.len() ==> #[trigger] key_chars[i]@ == keys[i],
                x < keys.len(),
                forall|p: int| 0 <= p < sorted.len() ==> #[trigger] sorted[p] < keys.len(),
                v.len() == sorted.len() + 1,
                j <= sorted.len(),
                v@.take(j as int) == sorted.take(j as int),
                v@.skip(j as int + 1) == sorted.skip(j as int),
                insert_by_key(keys, sorted, x) == insert_by_key(keys, sorted.take(j as int), x) + sorted.skip(
                    j as int,
                ),
            ensures
                j == 0 || key_before(keys, sorted[j - 1], x),
            decreases j,
        {
            if j == 0 {
                break;
            }
            let prev = v[j - 1];
            let pc = &key_chars[prev];
            let xc = &key_chars[x];
            let before = chars_less(pc.as_slice(), xc.as_slice()) || (chars_eq(pc.as_slice(), xc.as_slice())
                && prev < x);
            proof {
                assert(prev == sorted[j - 1]);
                assert(before == key_before(keys, prev, x));
                assert(sorted.take(j as int).last() == prev);
                assert(sorted.take(j as int).drop_last() == sorted.take(j as int - 1));
            }
            if before {
                break;
            }
            v.set(j, prev);
            proof {
                assert(sorted.skip(j as int - 1) == seq![prev] + sorted.skip(j as int));
                assert(v@.skip(j as int) == sorted.skip(j as int - 1));
                assert(v@.take(j as int - 1) == sorted.take(j as int - 1));
            }
            j = j - 1;
        }
        v.set(j, x);
        proof {
            if j == 0 {
                assert(sorted.take(0) =~= Seq::<usize>::empty());
                assert(sorted.skip(0) == sorted);
            } else {
                assert(sorted.take(j as int).last() == sorted[j - 1]);
            }
            assert(v@ =~= insert_by_key(keys, sorted.take(j as int), x) + sorted.skip(j as int));
            lemma_insert_by_key_bounds(keys, sorted, x);
        }
        k = k + 1;
    }
    assert(idx@.take(idx.len() as int) == idx@);
    v
}

proof fn lemma_insert_by_key_bounds(keys: Seq<Seq<char>>, sorted: Seq<usize>, x: usize)
    requires
        x < keys.len(),
        forall|p: int| 0 <= p < sorted.len() ==> #[trigger] sorted[p] < keys.len(),
    ensures
        insert_by_key(keys, sorted, x).len() == sorted.len() + 1,
        forall|p: int|
            0 <= p < insert_by_key(keys, sorted, x).len() ==> #[trigger] insert_by_key(keys, sorted, x)[p]
                < keys.len(),
    decreases sorted.len(),
{
    if sorted.len() > 0 && !key_before(keys, sorted.last(), x) {
        lemma_insert_by_key_bounds(keys, sorted.drop_last(), x);
    }
}

/// Sorting keeps the positions in range and the length unchanged.
pub proof fn lemma_sort_bounds(keys: Seq<Seq<char>>, idx: Seq<usize>)
    requires
        forall|p: int| 0 <= p < idx.len() ==> #[trigger] idx[p] < keys.len(),
    ensures
        forall|p: int|
            0 <= p < sort_by_key(keys, idx).len() ==> #[trigger] sort_by_key(keys, idx)[p] < keys.len(),
        sort_by_key(keys, idx).len() == idx.len(),
    decreases idx.len(),
{
    if idx.len() > 0 {
        lemma_sort_bounds(keys, idx.drop_last());
        lemma_insert_by_key_bounds(keys, sort_by_key(keys, idx.drop_last()), idx.last());
    }
}


/// `s` is in strictly increasing key order.
pub open spec fn sorted_by_key(keys: Seq<Seq<char>>, s: Seq<usize>) -> bool {
    forall|i: int, j: int| 0 <= i < j < s.len() ==> key_before(keys, #[trigger] s[i], #[trigger] s[j])
}

proof fn lemma_key_before_order(keys: Seq<Seq<char>>, a: usize, b: usize, c: usize)
    ensures
        !key_before(keys, a, a),
        a != b ==> (key_before(keys, a, b) || key_before(keys, b, a)),
        !(key_before(keys, a, b) && key_before(keys, b, a)),
        key_before(keys, a, b) && key_before(keys, b, c) ==> key_before(keys, a, c),
{
    lemma_str_less_total(keys[a as int], keys[b as int]);
    lemma_str_less_total(keys[a as int], keys[a as int]);
    lemma_str_less_total(keys[a as int], keys[c as int]);
    if str_less(keys[a as int], keys[b as int]) && str_less(keys[b as int], keys[c as int]) {
        lemma_str_less_trans(keys[a as int], keys[b as int], keys[c as int]);
    }
}

proof fn lemma_insert_sorted(keys: Seq<Seq<char>>, sorted: Seq<usize>, x: usize)
    requires
        sorted_by_key(keys, sorted),
        !sorted.contains(x),
    ensures
        sorted_by_key(keys, insert_by_key(keys, sorted, x)),
        forall|y: usize| #[trigger] insert_by_key(keys, sorted, x).contains(y) <==> (sorted.contains(y) || y == x),
        insert_by_key(keys, sorted, x).len() == sorted.len() + 1,
    decreases sorted.len(),
{
    let r = insert_by_key(keys, sorted, x);
    if sorted.len() == 0 {
        assert forall|y: usize| #[trigger] r.contains(y) <==> (sorted.contains(y) || y == x) by {
            if r.contains(y) {
                assert(r[0] == y);
            }
            if y == x {
                assert(r[0] == x);
            }
        }
    } else if key_before(keys, sorted.last(), x) {
        assert forall|i: int, j: int| 0 <= i < j < r.len() implies key_before(keys, #[trigger] r[i], #[trigger] r[j]) by {
            if j == r.len() - 1 && i < j {
                if i < sorted.len() - 1 {
                    lemma_key_before_order(keys, sorted[i], sorted.last(), x);
                }
            }
        }
        assert forall|y: usize| #[trigger] r.contains(y) <==> (sorted.contains(y) || y == x) by {
            if r.contains(y) {
                let k = choose|k: int| 0 <= k < r.len() && r[k] == y;
                if k < sorted.len() {
                    assert(sorted[k] == y);
                }
            }
            if sorted.contains(y) {
                let k = choose|k: int| 0 <= k < sorted.len() && sorted[k] == y;
                assert(r[k] == y);
            }
            if y == x {
                assert(r[sorted.len() as int] == x);
            }
        }
    } else {
        let d = sorted.drop_last();
        let last = sorted.last();
        assert(sorted_by_key(keys, d)) by {
            assert forall|i: int, j: int| 0 <= i < j < d.len() implies key_before(keys, #[trigger] d[i], #[trigger] d[j]) by {
                assert(d[i] == sorted[i] && d[j] == sorted[j]);
            }
        }
        assert(!d.contains(x)) by {
            if d.contains(x) {
                let k = choose|k: int| 0 <= k < d.len() && d[k] == x;
                assert(sorted[k] == x);
            }
        }
        lemma_insert_sorted(keys, d, x);
        let ins = insert_by_key(keys, d, x);
        assert(r == ins.push(last));
        assert(last != x) by {
            assert(sorted[sorted.len() - 1] == last);
        }
        lemma_key_before_order(keys, x, last, x);
        assert(key_before(keys, x, last));
        assert forall|i: int, j: int| 0 <= i < j < r.len() implies key_before(keys, #[trigger] r[i], #[trigger] r[j]) by {
            if j == r.len() - 1 {
                let y = r[i];
                assert(ins.contains(y)) by {
                    assert(ins[i] == y);
                }
                if y == x {
                } else {
                    assert(d.contains(y));
                    let k = choose|k: int| 0 <= k < d.len() && d[k] == y;
                    assert(sorted[k] == y);
                    assert(key_before(keys, sorted[k], sorted[sorted.len() - 1]));
                }
            } else {
                assert(r[i] == ins[i] && r[j] == ins[j]);
            }
        }
        assert forall|y: usize| #[trigger] r.contains(y) <==> (sorted.contains(y) || y == x) by {
            if r.contains(y) {
                let k = choose|k: int| 0 <= k < r.len() && r[k] == y;
                if k < ins.len() {
                    assert(ins[k] == y);
                    assert(ins.contains(y));
                    if d.contains(y) {
                        let q = choose|q: int| 0 <= q < d.len() && d[q] == y;
                        assert(sorted[q] == y);
                    }
                } else {
                    assert(sorted[sorted.len() - 1] == y);
                }
            }
            if sorted.contains(y) {
                let k = choose|k: int| 0 <= k < sorted.len() && sorted[k] == y;
                if k < d.len() {
                    assert(d[k] == y);
                    assert(d.contains(y));
                    assert(ins.contains(y));
                    let q = choose|q: int| 0 <= q < ins.len() && ins[q] == y;
                    assert(r[q] == y);
                } else {
                    assert(r[r.len() - 1] == y);
                }
            }
            if y == x {
                assert(ins.contains(x));
                let q = choose|q: int| 0 <= q < ins.len() && ins[q] == x;
                assert(r[q] == x);
            }
        }
    }
}

/// Sorting distinct positions gives them in strictly increasing key order,
/// each exactly once.
pub proof fn lemma_sort_sorted(keys: Seq<Seq<char>>, idx: Seq<usize>)
    requires
        forall|i: int, j: int| 0 <= i < j < idx.len() ==> idx[i] != idx[j],
    ensures
        sorted_by_key(keys, sort_by_key(keys, idx)),
        forall|y: usize| #[trigger] sort_by_key(keys, idx).contains(y) <==> idx.contains(y),
        sort_by_key(keys, idx).len() == idx.len(),
    decreases idx.len(),
{
    if idx.len() > 0 {
        let d = idx.drop_last();
        lemma_sort_sorted(keys, d);
        let sd = sort_by_key(keys, d);
        assert(!sd.contains(idx.last())) by {
            if sd.contains(idx.last()) {
                assert(d.contains(idx.last()));
                let k = choose|k: int| 0 <= k < d.len() && d[k] == idx.last();
                assert(idx[k] == idx[idx.len() - 1]);
            }
        }
        lemma_insert_sorted(keys, sd, idx.last());
        assert forall|y: usize| #[trigger] sort_by_key(keys, idx).contains(y) <==> idx.contains(y) by {
            if d.contains(y) {
                let k = choose|k: int| 0 <= k < d.len() && d[k] == y;
                assert(idx[k] == y);
            }
            if idx.contains(y) {
                let k = choose|k: int| 0 <= k < idx.len() && idx[k] == y;
                if k < d.len() {
                    assert(d[k] == y);
                }
            }
        }
    }
}

} // verus!
