//! Stable ordering of names by a rank and a text: the order a stable sort
//! gives, with items of equal keys kept in the order they came in.
use vstd::prelude::*;

use crate::text::{
    chars_lt, lemma_text_lt_asymmetric, lemma_text_lt_irreflexive, lemma_text_lt_total,
    lemma_text_lt_transitive, text_lt,
};

verus! {

/// How an item is ranked: by `rank`, higher first, then by `text`.
pub struct SortKey {
    pub rank: u64,
    pub text: Vec<char>,
}

/// The key as values.
pub open spec fn key_view(k: SortKey) -> (int, Seq<char>) {
    (k.rank as int, k.text@)
}

/// The keys as values.
pub open spec fn key_views(ks: Seq<SortKey>) -> Seq<(int, Seq<char>)> {
    ks.map_values(|k: SortKey| key_view(k))
}

/// Whether key `a` sorts strictly before key `b`.
pub open spec fn key_before(a: (int, Seq<char>), b: (int, Seq<char>)) -> bool {
    a.0 > b.0 || (a.0 == b.0 && text_lt(a.1, b.1))
}

/// Position `p` placed after every position of `t` whose key does not sort
/// after its own.
pub open spec fn insert_position(t: Seq<int>, p: int, keys: Seq<(int, Seq<char>)>) -> Seq<int>
    decreases t.len(),
{
    if t.len() == 0 || !key_before(keys[p], keys[t.last()]) {
        t.push(p)
    } else {
        insert_position(t.drop_last(), p, keys).push(t.last())
    }
}

/// The positions of the first `n` keys in stable sorted order: by key, equal
/// keys in their order.
pub open spec fn stable_order(keys: Seq<(int, Seq<char>)>, n: int) -> Seq<int>
    decreases n,
{
    if n <= 0 {
        Seq::<int>::empty()
    } else {
        insert_position(stable_order(keys, n - 1), n - 1, keys)
    }
}

/// The items taken in the order of `order`.
pub open spec fn pick<A>(items: Seq<A>, order: Seq<int>) -> Seq<A> {
    order.map_values(|p: int| items[p])
}

proof fn lemma_insert_position_at(t: Seq<int>, p: int, keys: Seq<(int, Seq<char>)>, q: int)
    requires
        0 <= q <= t.len(),
        q == 0 || !key_before(keys[p], keys[t[q - 1]]),
        forall|k: int| q <= k < t.len() ==> key_before(keys[p], #[trigger] keys[t[k]]),
    ensures
        insert_position(t, p, keys) == t.take(q) + seq![p] + t.skip(q),
    decreases t.len(),
{
    if q == t.len() {
        assert(t.take(q) + seq![p] + t.skip(q) =~= t.push(p));
    } else {
        assert(keys[t[t.len() - 1]] == keys[t.last()]);
        lemma_insert_position_at(t.drop_last(), p, keys, q);
        assert(t.take(q) + seq![p] + t.skip(q) =~= (t.drop_last().take(q) + seq![p]
            + t.drop_last().skip(q)).push(t.last()));
    }
}

pub proof fn lemma_stable_order_len(keys: Seq<(int, Seq<char>)>, n: int)
    requires
        n >= 0,
    ensures
        stable_order(keys, n).len() == n,
        forall|k: int| 0 <= k < n ==> 0 <= #[trigger] stable_order(keys, n)[k] < n,
    decreases n,
{
    if n > 0 {
        lemma_stable_order_len(keys, n - 1);
        lemma_insert_position_bounds(stable_order(keys, n - 1), n - 1, keys, n);
    }
}

proof fn lemma_insert_position_bounds(t: Seq<int>, p: int, keys: Seq<(int, Seq<char>)>, n: int)
    requires
        0 <= p < n,
        forall|k: int| 0 <= k < t.len() ==> 0 <= #[trigger] t[k] < n,
    ensures
        insert_position(t, p, keys).len() == t.len() + 1,
        forall|k: int|
            0 <= k < insert_position(t, p, keys).len() ==> 0 <= #[trigger] insert_position(t, p, keys)[k]
                < n,
    decreases t.len(),
{
    if t.len() > 0 && key_before(keys[p], keys[t.last()]) {
        lemma_insert_position_bounds(t.drop_last(), p, keys, n);
        let r = insert_position(t.drop_last(), p, keys);
        assert forall|k: int| 0 <= k < r.push(t.last()).len() implies 0 <= #[trigger] r.push(t.last())[k]
            < n by {
            if k < r.len() {
            } else {
                assert(t[t.len() - 1] == t.last());
            }
        }
    }
}

/// Whether key `a` sorts strictly before key `b` (`key_before`).
fn sorts_before(a: &SortKey, b: &SortKey) -> (r: bool)
    ensures
        r == key_before(key_view(*a), key_view(*b)),
{
    a.rank > b.rank || (a.rank == b.rank && chars_lt(a.text.as_slice(), b.text.as_slice()))
}

/// The positions of the keys in stable sorted order (`stable_order`).
pub fn stable_order_of(keys: &Vec<SortKey>) -> (r: Vec<usize>)
    ensures
        r@.map_values(|p: usize| p as int) == stable_order(key_views(keys@), keys.len() as int),
        forall|k: int| 0 <= k < r.len() ==> #[trigger] r@[k] < keys.len(),
        r.len() == keys.len(),
{
    let ghost kv = key_views(keys@);
    let mut sorted: Vec<usize> = Vec::new();
    let mut i: usize = 0;
    while i < keys.len()
        invariant
            kv == key_views(keys@),
            i <= keys.len(),
            sorted@.map_values(|p: usize| p as int) == stable_order(kv, i as int),
            forall|k: int| 0 <= k < sorted.len() ==> #[trigger] sorted@[k] < i,
            sorted.len() == i,
        decreases keys.len() - i,
    {
        let ghost t = sorted@.map_values(|p: usize| p as int);
        let mut q: usize = sorted.len();
        while q > 0 && sorts_before(&keys[i], &keys[sorted[q - 1]])
            invariant
                kv == key_views(keys@),
                t == sorted@.map_values(|p: usize| p as int),
                i < keys.len(),
                q <= sorted.len(),
                forall|k: int| 0 <= k < sorted.len() ==> #[trigger] sorted@[k] < i,
                forall|k: int| q <= k < t.len() ==> key_before(kv[i as int], #[trigger] kv[t[k]]),
            decreases q,
        {
            proof {
                assert(t[q - 1] == sorted@[q - 1] as int);
                assert(kv[t[q - 1]] == key_view(keys@[sorted@[q - 1] as int]));
                assert(kv[i as int] == key_view(keys@[i as int]));
            }
            q -= 1;
        }
        proof {
            assert(kv[i as int] == key_view(keys@[i as int]));
            if q > 0 {
                assert(t[q - 1] == sorted@[q - 1] as int);
                assert(kv[t[q - 1]] == key_view(keys@[sorted@[q - 1] as int]));
            }
            lemma_insert_position_at(t, i as int, kv, q as int);
        }
        let ghost old_sorted = sorted@;
        sorted.insert(q, i);
        proof {
            assert(sorted@.map_values(|p: usize| p as int) =~= t.take(q as int) + seq![i as int] + t.skip(
                q as int,
            ));
            assert forall|k: int| 0 <= k < sorted.len() implies #[trigger] sorted@[k] < i + 1 by {
                if k < q {
                    assert(sorted@[k] == old_sorted[k]);
                } else if k > q {
                    assert(sorted@[k] == old_sorted[k - 1]);
                }
            }
        }
        i += 1;
    }
    sorted
}

// ---------------------------------------------------------------------------
// The order is a stable sort
// ---------------------------------------------------------------------------

/// `o` lists the keys' positions sorted: no key sorts before one listed
/// earlier, and positions of equal keys keep their order.
pub open spec fn sorted_stably(o: Seq<int>, keys: Seq<(int, Seq<char>)>) -> bool {
    forall|i: int, j: int|
        0 <= i < j < o.len() ==> !key_before(keys[#[trigger] o[j]], keys[#[trigger] o[i]]) && (keys[o[i]]
            == keys[o[j]] ==> o[i] < o[j])
}

/// `o` lists each of the positions `0..n` once.
pub open spec fn lists_each_once(o: Seq<int>, n: int) -> bool {
    &&& o.len() == n
    &&& forall|i: int| 0 <= i < o.len() ==> 0 <= #[trigger] o[i] < n
    &&& forall|i: int, j: int| 0 <= i < j < o.len() ==> #[trigger] o[i] != #[trigger] o[j]
}

proof fn lemma_key_before_irreflexive(a: (int, Seq<char>))
    ensures
        !key_before(a, a),
{
    lemma_text_lt_irreflexive(a.1);
}

proof fn lemma_key_before_asymmetric(a: (int, Seq<char>), b: (int, Seq<char>))
    requires
        key_before(a, b),
    ensures
        !key_before(b, a),
{
    if a.0 == b.0 {
        lemma_text_lt_asymmetric(a.1, b.1);
    }
}

proof fn lemma_key_before_transitive(a: (int, Seq<char>), b: (int, Seq<char>), c: (int, Seq<char>))
    requires
        key_before(a, b),
        key_before(b, c),
    ensures
        key_before(a, c),
{
    if a.0 == b.0 && b.0 == c.0 {
        lemma_text_lt_transitive(a.1, b.1, c.1);
    }
}

proof fn lemma_key_before_total(a: (int, Seq<char>), b: (int, Seq<char>))
    requires
        a != b,
    ensures
        key_before(a, b) || key_before(b, a),
{
    if a.0 == b.0 {
        lemma_text_lt_total(a.1, b.1);
    }
}

/// Sorting no later is transitive.
proof fn lemma_not_before_transitive(a: (int, Seq<char>), b: (int, Seq<char>), c: (int, Seq<char>))
    requires
        !key_before(b, a),
        !key_before(c, b),
    ensures
        !key_before(c, a),
{
    if key_before(c, a) {
        if a == b {
        } else {
            lemma_key_before_total(a, b);
            lemma_key_before_transitive(c, a, b);
        }
    }
}

proof fn lemma_insert_position_shape(t: Seq<int>, p: int, keys: Seq<(int, Seq<char>)>) -> (q: int)
    ensures
        0 <= q <= t.len(),
        insert_position(t, p, keys) == t.take(q) + seq![p] + t.skip(q),
        q == 0 || !key_before(keys[p], keys[t[q - 1]]),
        forall|k: int| q <= k < t.len() ==> key_before(keys[p], #[trigger] keys[t[k]]),
    decreases t.len(),
{
    if t.len() == 0 || !key_before(keys[p], keys[t.last()]) {
        assert(t.take(t.len() as int) + seq![p] + t.skip(t.len() as int) =~= t.push(p));
        assert(t.len() == 0 || t[t.len() - 1] == t.last());
        t.len() as int
    } else {
        let q = lemma_insert_position_shape(t.drop_last(), p, keys);
        assert(t.take(q) + seq![p] + t.skip(q) =~= (t.drop_last().take(q) + seq![p]
            + t.drop_last().skip(q)).push(t.last()));
        assert forall|k: int| q <= k < t.len() implies key_before(keys[p], #[trigger] keys[t[k]]) by {
            if k < t.len() - 1 {
                assert(t[k] == t.drop_last()[k]);
            }
        }
        if q > 0 {
            assert(t[q - 1] == t.drop_last()[q - 1]);
        }
        q
    }
}

/// The order of `stable_order` is a stable sort of the positions `0..n`:
/// each listed once, sorted by key, equal keys in their order.
pub proof fn lemma_stable_order_sorts(keys: Seq<(int, Seq<char>)>, n: int)
    requires
        0 <= n <= keys.len(),
    ensures
        lists_each_once(stable_order(keys, n), n),
        sorted_stably(stable_order(keys, n), keys),
    decreases n,
{
    if n > 0 {
        let t = stable_order(keys, n - 1);
        let p = n - 1;
        lemma_stable_order_sorts(keys, n - 1);
        let q = lemma_insert_position_shape(t, p, keys);
        let r = stable_order(keys, n);
        assert(r == t.take(q) + seq![p] + t.skip(q));
        assert(r.len() == n);
        assert forall|i: int| 0 <= i < r.len() implies 0 <= #[trigger] r[i] < n by {
            if i < q {
                assert(r[i] == t[i]);
            } else if i > q {
                assert(r[i] == t[i - 1]);
            }
        }
        assert forall|i: int, j: int| 0 <= i < j < r.len() implies #[trigger] r[i] != #[trigger] r[j] by {
            if i < q && j < q {
                assert(r[i] == t[i] && r[j] == t[j]);
            } else if i < q && j == q {
                assert(r[i] == t[i]);
            } else if i < q && j > q {
                assert(r[i] == t[i] && r[j] == t[j - 1]);
            } else if i == q {
                assert(r[j] == t[j - 1]);
            } else {
                assert(r[i] == t[i - 1] && r[j] == t[j - 1]);
            }
        }
        assert forall|i: int, j: int| 0 <= i < j < r.len() implies !key_before(
            keys[#[trigger] r[j]],
            keys[#[trigger] r[i]],
        ) && (keys[r[i]] == keys[r[j]] ==> r[i] < r[j]) by {
            if i < q && j < q {
                assert(r[i] == t[i] && r[j] == t[j]);
            } else if i < q && j == q {
                assert(r[i] == t[i]);
                if i < q - 1 {
                    assert(!key_before(keys[t[q - 1]], keys[t[i]]));
                    lemma_not_before_transitive(keys[t[i]], keys[t[q - 1]], keys[p]);
                }
            } else if i < q && j > q {
                assert(r[i] == t[i] && r[j] == t[j - 1]);
            } else if i == q {
                assert(r[j] == t[j - 1]);
                assert(key_before(keys[p], keys[t[j - 1]]));
                lemma_key_before_asymmetric(keys[p], keys[t[j - 1]]);
                lemma_key_before_irreflexive(keys[p]);
            } else {
                assert(r[i] == t[i - 1] && r[j] == t[j - 1]);
            }
        }
    }
}

} // verus!
