//! Ranking by descending key.
//!
//! A ranking of a sequence of keys lists their indices so that larger keys
//! come first and equal keys keep the order in which they stand. There is
//! exactly one such list for every sequence of keys.

use vstd::prelude::*;

verus! {

/// Whether index `i` comes before index `j` in the ranking: its key is
/// larger, or the keys are equal and `i` is the earlier index.
pub open spec fn precedes(keys: Seq<u64>, i: int, j: int) -> bool {
    keys[i] > keys[j] || (keys[i] == keys[j] && i < j)
}

/// Whether `order` ranks the first `n` keys: it lists `n` indices below `n`,
/// each before all that it precedes.
pub open spec fn is_ranking(keys: Seq<u64>, n: int, order: Seq<int>) -> bool {
    &&& order.len() == n
    &&& forall|k: int| 0 <= k < order.len() ==> 0 <= #[trigger] order[k] < n
    &&& forall|a: int, b: int|
        0 <= a < b < order.len() ==> precedes(keys, #[trigger] order[a], #[trigger] order[b])
}

/// The place at which an index with key `key` enters `order`: behind every
/// index whose key is at least `key`.
pub open spec fn slot(keys: Seq<u64>, order: Seq<int>, key: u64) -> int
    decreases order.len(),
{
    if order.len() == 0 {
        0
    } else if keys[order.last()] >= key {
        order.len() as int
    } else {
        slot(keys, order.drop_last(), key)
    }
}

/// The ranking of the first `n` keys.
pub open spec fn ranking_of(keys: Seq<u64>, n: int) -> Seq<int>
    decreases n,
{
    if n <= 0 {
        Seq::empty()
    } else {
        let before = ranking_of(keys, n - 1);
        before.insert(slot(keys, before, keys[n - 1]), n - 1)
    }
}

/// The ranking of all keys.
pub open spec fn ranking(keys: Seq<u64>) -> Seq<int> {
    ranking_of(keys, keys.len() as int)
}

/// The first `limit` places of the ranking, or all of it where it is
/// shorter.
pub open spec fn top_ranking(keys: Seq<u64>, limit: int) -> Seq<int> {
    if limit < keys.len() {
        ranking(keys).take(limit)
    } else {
        ranking(keys)
    }
}

/// The indices as integers.
pub open spec fn indices(order: Seq<usize>) -> Seq<int> {
    order.map_values(|i: usize| i as int)
}

/// The items at the given indices.
pub open spec fn pick<T>(items: Seq<T>, order: Seq<int>) -> Seq<T> {
    Seq::new(order.len(), |k: int| items[order[k]])
}

/// Keys never rise along `order`.
pub open spec fn keys_descend(keys: Seq<u64>, order: Seq<int>) -> bool {
    forall|a: int, b: int|
        0 <= a < b < order.len() ==> keys[#[trigger] order[a]] >= keys[#[trigger] order[b]]
}

/// The slot splits `order`: in front of it the keys are at least `key`,
/// from it on they are smaller.
pub proof fn lemma_slot(keys: Seq<u64>, order: Seq<int>, key: u64)
    requires
        keys_descend(keys, order),
    ensures
        0 <= slot(keys, order, key) <= order.len(),
        forall|k: int| 0 <= k < slot(keys, order, key) ==> keys[#[trigger] order[k]] >= key,
        forall|k: int| slot(keys, order, key) <= k < order.len() ==> keys[#[trigger] order[k]] < key,
    decreases order.len(),
{
    if order.len() > 0 {
        if keys[order.last()] >= key {
            assert forall|k: int| 0 <= k < order.len() implies keys[#[trigger] order[k]]
                >= key by {
                if k < order.len() - 1 {
                    assert(keys[order[k]] >= keys[order[order.len() - 1]]);
                }
            }
        } else {
            let init = order.drop_last();
            assert(keys_descend(keys, init)) by {
                assert forall|a: int, b: int| 0 <= a < b < init.len() implies keys[
                #[trigger] init[a]] >= keys[#[trigger] init[b]] by {
                    assert(init[a] == order[a] && init[b] == order[b]);
                }
            }
            lemma_slot(keys, init, key);
            assert forall|k: int| 0 <= k < slot(keys, order, key) implies keys[
            #[trigger] order[k]] >= key by {
                assert(init[k] == order[k]);
            }
            assert forall|k: int| slot(keys, order, key) <= k < order.len() implies keys[
            #[trigger] order[k]] < key by {
                if k < order.len() - 1 {
                    assert(init[k] == order[k]);
                }
            }
        }
    }
}

/// A place that splits `order` as the slot does is the slot.
pub proof fn lemma_slot_is(keys: Seq<u64>, order: Seq<int>, key: u64, s: int)
    requires
        0 <= s <= order.len(),
        s > 0 ==> keys[order[s - 1]] >= key,
        forall|k: int| s <= k < order.len() ==> keys[#[trigger] order[k]] < key,
    ensures
        slot(keys, order, key) == s,
    decreases order.len(),
{
    if order.len() > 0 {
        if s == order.len() {
        } else {
            let init = order.drop_last();
            assert(keys[order[order.len() - 1]] < key);
            assert forall|k: int| s <= k < init.len() implies keys[#[trigger] init[k]] < key by {
                assert(init[k] == order[k]);
            }
            if s > 0 {
                assert(init[s - 1] == order[s - 1]);
            }
            lemma_slot_is(keys, init, key, s);
        }
    }
}

/// The ranking is a ranking: it lists every index below `n` once, larger
/// keys first, equal keys in the order in which they stand.
pub proof fn lemma_ranking_of(keys: Seq<u64>, n: int)
    requires
        0 <= n <= keys.len(),
    ensures
        is_ranking(keys, n, ranking_of(keys, n)),
        keys_descend(keys, ranking_of(keys, n)),
    decreases n,
{
    if n > 0 {
        let before = ranking_of(keys, n - 1);
        lemma_ranking_of(keys, n - 1);
        let key = keys[n - 1];
        lemma_slot(keys, before, key);
        let s = slot(keys, before, key);
        let after = before.insert(s, n - 1);
        assert forall|k: int| 0 <= k < after.len() implies 0 <= #[trigger] after[k] < n by {
            if k < s {
                assert(after[k] == before[k]);
            } else if k > s {
                assert(after[k] == before[k - 1]);
            }
        }
        assert forall|a: int, b: int| 0 <= a < b < after.len() implies precedes(
            keys,
            #[trigger] after[a],
            #[trigger] after[b],
        ) by {
            if b < s {
                assert(after[a] == before[a] && after[b] == before[b]);
            } else if b == s {
                assert(after[a] == before[a]);
                assert(keys[before[a]] >= key);
            } else if a < s {
                assert(after[a] == before[a] && after[b] == before[b - 1]);
            } else if a == s {
                assert(after[b] == before[b - 1]);
                assert(keys[before[b - 1]] < key);
            } else {
                assert(after[a] == before[a - 1] && after[b] == before[b - 1]);
            }
        }
        assert(keys_descend(keys, after)) by {
            assert forall|a: int, b: int| 0 <= a < b < after.len() implies keys[
            #[trigger] after[a]] >= keys[#[trigger] after[b]] by {
                assert(precedes(keys, after[a], after[b]));
            }
        }
    }
}

/// The ranking leaves no index out: every index below `n` has its place.
pub proof fn lemma_ranking_complete(keys: Seq<u64>, n: int, i: int)
    requires
        0 <= i < n <= keys.len(),
    ensures
        exists|k: int| 0 <= k < n && #[trigger] ranking_of(keys, n)[k] == i,
    decreases n,
{
    let before = ranking_of(keys, n - 1);
    lemma_ranking_of(keys, n - 1);
    lemma_slot(keys, before, keys[n - 1]);
    let s = slot(keys, before, keys[n - 1]);
    let after = ranking_of(keys, n);
    if i == n - 1 {
        assert(after[s] == i);
    } else {
        lemma_ranking_complete(keys, n - 1, i);
        let k = choose|k: int| 0 <= k < n - 1 && #[trigger] before[k] == i;
        if k < s {
            assert(after[k] == i);
        } else {
            assert(after[k + 1] == i);
        }
    }
}

/// The laws of the ranking of all keys: every place holds an index, larger
/// keys come first, and equal keys keep the order in which they stand. No
/// index occurs twice.
pub proof fn lemma_ranking(keys: Seq<u64>)
    ensures
        is_ranking(keys, keys.len() as int, ranking(keys)),
        forall|a: int, b: int|
            0 <= a < b < keys.len() ==> keys[#[trigger] ranking(keys)[a]] >= keys[
            #[trigger] ranking(keys)[b]],
        forall|a: int, b: int|
            0 <= a < b < keys.len() && keys[#[trigger] ranking(keys)[a]] == keys[
            #[trigger] ranking(keys)[b]] ==> ranking(keys)[a] < ranking(keys)[b],
        forall|a: int, b: int|
            0 <= a < b < keys.len() ==> #[trigger] ranking(keys)[a] != #[trigger] ranking(keys)[b],
{
    lemma_ranking_of(keys, keys.len() as int);
    let order = ranking(keys);
    assert forall|a: int, b: int| 0 <= a < b < keys.len() implies keys[#[trigger] order[a]]
        >= keys[#[trigger] order[b]] by {
        assert(precedes(keys, order[a], order[b]));
    }
    assert forall|a: int, b: int|
        0 <= a < b < keys.len() && keys[#[trigger] order[a]] == keys[
        #[trigger] order[b]] implies order[a] < order[b] by {
        assert(precedes(keys, order[a], order[b]));
    }
    assert forall|a: int, b: int| 0 <= a < b < keys.len() implies #[trigger] order[a]
        != #[trigger] order[b] by {
        assert(precedes(keys, order[a], order[b]));
    }
}

/// A list of `n` different indices below `n` leaves none of them out.
proof fn lemma_all_present(list: Seq<int>, n: int, i: int)
    requires
        list.len() == n,
        0 <= i < n,
        forall|k: int| 0 <= k < n ==> 0 <= #[trigger] list[k] < n,
        forall|a: int, b: int| 0 <= a < b < n ==> #[trigger] list[a] != #[trigger] list[b],
    ensures
        exists|k: int| 0 <= k < n && #[trigger] list[k] == i,
    decreases n,
{
    let last = n - 1;
    if exists|p: int| 0 <= p < n && #[trigger] list[p] == last {
        let p = choose|p: int| 0 <= p < n && #[trigger] list[p] == last;
        if i != last {
            let rest = list.remove(p);
            assert forall|k: int| 0 <= k < last implies 0 <= #[trigger] rest[k] < last by {
                if k < p {
                    assert(rest[k] == list[k]);
                } else {
                    assert(rest[k] == list[k + 1]);
                }
            }
            assert forall|a: int, b: int| 0 <= a < b < last implies #[trigger] rest[a]
                != #[trigger] rest[b] by {
                let x = if a < p { a } else { a + 1 };
                let y = if b < p { b } else { b + 1 };
                assert(rest[a] == list[x] && rest[b] == list[y]);
            }
            lemma_all_present(rest, last, i);
            let k = choose|k: int| 0 <= k < last && #[trigger] rest[k] == i;
            if k < p {
                assert(list[k] == i);
            } else {
                assert(list[k + 1] == i);
            }
        }
    } else {
        // Then all of the list lies below `n - 1`, and its last index
        // already stands among those in front of it.
        let front = list.drop_last();
        assert forall|k: int| 0 <= k < last implies 0 <= #[trigger] front[k] < last by {
            assert(front[k] == list[k]);
        }
        assert forall|a: int, b: int| 0 <= a < b < last implies #[trigger] front[a]
            != #[trigger] front[b] by {
            assert(front[a] == list[a] && front[b] == list[b]);
        }
        assert(0 <= list[last] < n);
        assert(list[last] != last);
        lemma_all_present(front, last, list[last]);
        let k = choose|k: int| 0 <= k < last && #[trigger] front[k] == list[last];
        assert(list[k] == list[last]);
        assert(false);
    }
}

/// There is one ranking only: any list that has the properties of a
/// ranking is the ranking.
pub proof fn lemma_ranking_unique(keys: Seq<u64>, n: int, order: Seq<int>)
    requires
        0 <= n <= keys.len(),
        is_ranking(keys, n, order),
    ensures
        order == ranking_of(keys, n),
    decreases n,
{
    if n == 0 {
        assert(order =~= ranking_of(keys, n));
    } else {
        let last = n - 1;
        assert forall|a: int, b: int| 0 <= a < b < n implies #[trigger] order[a]
            != #[trigger] order[b] by {
            assert(precedes(keys, order[a], order[b]));
        }
        lemma_all_present(order, n, last);
        let p = choose|p: int| 0 <= p < n && #[trigger] order[p] == last;
        let rest = order.remove(p);
        assert forall|k: int| 0 <= k < rest.len() implies 0 <= #[trigger] rest[k] < last by {
            if k < p {
                assert(rest[k] == order[k]);
            } else {
                assert(rest[k] == order[k + 1]);
            }
        }
        assert forall|a: int, b: int| 0 <= a < b < rest.len() implies precedes(
            keys,
            #[trigger] rest[a],
            #[trigger] rest[b],
        ) by {
            let x = if a < p { a } else { a + 1 };
            let y = if b < p { b } else { b + 1 };
            assert(rest[a] == order[x] && rest[b] == order[y]);
        }
        lemma_ranking_unique(keys, last, rest);
        assert forall|k: int| p <= k < rest.len() implies keys[#[trigger] rest[k]]
            < keys[last] by {
            assert(rest[k] == order[k + 1]);
            assert(precedes(keys, order[p], order[k + 1]));
        }
        if p > 0 {
            assert(rest[p - 1] == order[p - 1]);
            assert(precedes(keys, order[p - 1], order[p]));
        }
        lemma_slot_is(keys, rest, keys[last], p);
        assert(order =~= rest.insert(p, last));
    }
}

/// The laws of the top of the ranking: it holds `limit` indices, or all
/// where there are fewer; larger keys come first, equal keys keep the order
/// in which they stand, and every key that is left out is no larger than
/// any that is in, and stands later than those that equal it.
pub proof fn lemma_top_ranking(keys: Seq<u64>, limit: int)
    requires
        0 <= limit,
    ensures
        top_ranking(keys, limit).len() == if limit < keys.len() {
            limit
        } else {
            keys.len() as int
        },
        forall|k: int|
            0 <= k < top_ranking(keys, limit).len() ==> 0 <= #[trigger] top_ranking(keys, limit)[k]
                < keys.len(),
        forall|a: int, b: int|
            0 <= a < b < top_ranking(keys, limit).len() ==> precedes(
                keys,
                #[trigger] top_ranking(keys, limit)[a],
                #[trigger] top_ranking(keys, limit)[b],
            ),
        forall|a: int, b: int|
            0 <= a < top_ranking(keys, limit).len() <= b < keys.len() ==> precedes(
                keys,
                #[trigger] top_ranking(keys, limit)[a],
                #[trigger] ranking(keys)[b],
            ),
{
    lemma_ranking_of(keys, keys.len() as int);
}

/// Cutting a descending order short cuts the slot short with it.
proof fn lemma_slot_take(keys: Seq<u64>, order: Seq<int>, key: u64, m: int)
    requires
        keys_descend(keys, order),
        0 <= m <= order.len(),
    ensures
        slot(keys, order.take(m), key) == if slot(keys, order, key) < m {
            slot(keys, order, key)
        } else {
            m
        },
{
    lemma_slot(keys, order, key);
    let s = slot(keys, order, key);
    let short = order.take(m);
    let t = if s < m { s } else { m };
    assert forall|k: int| t <= k < short.len() implies keys[#[trigger] short[k]] < key by {
        assert(short[k] == order[k]);
    }
    if t > 0 {
        assert(short[t - 1] == order[t - 1]);
    }
    lemma_slot_is(keys, short, key, t);
}

fn slot_in(keys: &Vec<u64>, order: &Vec<usize>, key: u64) -> (s: usize)
    requires
        forall|k: int| 0 <= k < order@.len() ==> (#[trigger] order@[k]) < keys@.len(),
    ensures
        s == slot(keys@, indices(order@), key),
        s <= order@.len(),
{
    let ghost ints = indices(order@);
    let mut s: usize = order.len();
    while s > 0 && keys[order[s - 1]] < key
        invariant
            s <= order@.len(),
            ints == indices(order@),
            forall|k: int| 0 <= k < order@.len() ==> (#[trigger] order@[k]) < keys@.len(),
            forall|k: int| s <= k < ints.len() ==> keys@[#[trigger] ints[k]] < key,
        decreases s,
    {
        s = s - 1;
    }
    proof {
        lemma_slot_is(keys@, ints, key, s as int);
    }
    s
}

/// The top of the ranking by insertion: only the places asked for are kept
/// while the keys are read, so the time taken grows with the number of keys
/// times `limit`.
fn top_by_insertion(keys: &Vec<u64>, limit: usize) -> (order: Vec<usize>)
    ensures
        indices(order@) == top_ranking(keys@, limit as int),
        order@.len() == if limit < keys@.len() { limit as int } else { keys@.len() as int },
        forall|k: int| 0 <= k < order@.len() ==> (#[trigger] order@[k]) < keys@.len(),
{
    let mut order: Vec<usize> = Vec::new();
    let mut i: usize = 0;
    assert(indices(order@) =~= ranking_of(keys@, 0));
    while i < keys.len()
        invariant
            i <= keys@.len(),
            indices(order@) == if limit < i {
                ranking_of(keys@, i as int).take(limit as int)
            } else {
                ranking_of(keys@, i as int)
            },
            forall|k: int| 0 <= k < order@.len() ==> (#[trigger] order@[k]) < i,
        decreases keys@.len() - i,
    {
        let ghost full = ranking_of(keys@, i as int);
        let ghost before = indices(order@);
        proof {
            lemma_ranking_of(keys@, i as int);
            lemma_slot(keys@, full, keys@[i as int]);
            if limit < i {
                lemma_slot_take(keys@, full, keys@[i as int], limit as int);
            } else {
                assert(full.take(full.len() as int) =~= full);
            }
        }
        let s: usize = slot_in(keys, &order, keys[i]);
        let ghost spot = slot(keys@, full, keys@[i as int]);
        let ghost next = ranking_of(keys@, i + 1);
        assert(next == full.insert(spot, i as int));
        assert(full.len() == i);
        if s < limit {
            assert(spot == s);
            order.insert(s, i);
            assert(indices(order@) =~= before.insert(s as int, i as int));
            if order.len() > limit {
                order.truncate(limit);
                assert(indices(order@) =~= before.insert(
                    s as int,
                    i as int,
                ).take(limit as int));
                assert(before.insert(s as int, i as int).take(limit as int) =~= next.take(
                    limit as int,
                ));
            } else {
                assert(before == full);
            }
        } else {
            assert(spot >= limit);
            assert(limit <= i);
            assert(next.take(limit as int) =~= full.take(limit as int));
            assert(full.take(limit as int) =~= before);
        }
        proof {
            lemma_ranking_of(keys@, i + 1);
            let after = indices(order@);
            assert forall|k: int| 0 <= k < order@.len() implies (#[trigger] order@[k]) < i + 1 by {
                assert(after[k] == order@[k] as int);
                assert(after[k] == next[k]);
            }
        }
        i = i + 1;
    }
    proof {
        lemma_ranking_of(keys@, keys@.len() as int);
    }
    order
}

/// Whether `order` ranks the keys at the indices from `lo` up to `hi`.
pub open spec fn is_ranking_between(keys: Seq<u64>, lo: int, hi: int, order: Seq<int>) -> bool {
    &&& order.len() == hi - lo
    &&& forall|k: int| 0 <= k < order.len() ==> lo <= #[trigger] order[k] < hi
    &&& forall|a: int, b: int|
        0 <= a < b < order.len() ==> precedes(keys, #[trigger] order[a], #[trigger] order[b])
}

/// Merges the rankings of two neighbouring ranges of indices into the
/// ranking of both.
fn merge(
    keys: &Vec<u64>,
    left: &Vec<usize>,
    right: &Vec<usize>,
    lo: usize,
    mid: usize,
    hi: usize,
) -> (order: Vec<usize>)
    requires
        lo <= mid <= hi <= keys@.len(),
        is_ranking_between(keys@, lo as int, mid as int, indices(left@)),
        is_ranking_between(keys@, mid as int, hi as int, indices(right@)),
    ensures
        is_ranking_between(keys@, lo as int, hi as int, indices(order@)),
{
    let ghost l = indices(left@);
    let ghost r = indices(right@);
    let mut order: Vec<usize> = Vec::new();
    let mut i: usize = 0;
    let mut j: usize = 0;
    while i < left.len() || j < right.len()
        invariant
            lo <= mid <= hi <= keys@.len(),
            l == indices(left@),
            r == indices(right@),
            is_ranking_between(keys@, lo as int, mid as int, l),
            is_ranking_between(keys@, mid as int, hi as int, r),
            i <= left@.len(),
            j <= right@.len(),
            order@.len() == i + j,
            forall|k: int| 0 <= k < order@.len() ==> lo <= #[trigger] indices(order@)[k] < hi,
            forall|a: int, b: int|
                0 <= a < b < order@.len() ==> precedes(
                    keys@,
                    #[trigger] indices(order@)[a],
                    #[trigger] indices(order@)[b],
                ),
            forall|k: int, a: int|
                0 <= k < order@.len() && i <= a < l.len() ==> precedes(
                    keys@,
                    #[trigger] indices(order@)[k],
                    #[trigger] l[a],
                ),
            forall|k: int, b: int|
                0 <= k < order@.len() && j <= b < r.len() ==> precedes(
                    keys@,
                    #[trigger] indices(order@)[k],
                    #[trigger] r[b],
                ),
        decreases left@.len() - i + right@.len() - j,
    {
        let ghost before = indices(order@);
        let from_left: bool = if j == right.len() {
            true
        } else if i == left.len() {
            false
        } else {
            assert(l[i as int] == left@[i as int] && r[j as int] == right@[j as int]);
            keys[left[i]] >= keys[right[j]]
        };
        if from_left {
            let x: usize = left[i];
            assert(l[i as int] == x);
            order.push(x);
            i = i + 1;
            proof {
                let after = indices(order@);
                assert forall|k: int| 0 <= k < after.len() implies lo <= #[trigger] after[k]
                    < hi by {
                    if k < before.len() {
                        assert(after[k] == before[k]);
                    }
                }
                assert forall|a: int, b: int| 0 <= a < b < after.len() implies precedes(
                    keys@,
                    #[trigger] after[a],
                    #[trigger] after[b],
                ) by {
                    assert(after[a] == before[a]);
                    if b < before.len() {
                        assert(after[b] == before[b]);
                    } else {
                        assert(precedes(keys@, before[a], l[i - 1]));
                    }
                }
                assert forall|k: int, a: int|
                    0 <= k < after.len() && i <= a < l.len() implies precedes(
                    keys@,
                    #[trigger] after[k],
                    #[trigger] l[a],
                ) by {
                    if k < before.len() {
                        assert(after[k] == before[k]);
                    } else {
                        assert(precedes(keys@, l[i - 1], l[a]));
                    }
                }
                assert forall|k: int, b: int|
                    0 <= k < after.len() && j <= b < r.len() implies precedes(
                    keys@,
                    #[trigger] after[k],
                    #[trigger] r[b],
                ) by {
                    if k < before.len() {
                        assert(after[k] == before[k]);
                    } else {
                        assert(mid <= r[b] && l[i - 1] < mid);
                        assert(keys@[l[i - 1]] >= keys@[r[j as int]]);
                        if b > j {
                            assert(precedes(keys@, r[j as int], r[b]));
                        }
                    }
                }
            }
        } else {
            let y: usize = right[j];
            assert(r[j as int] == y);
            order.push(y);
            j = j + 1;
            proof {
                let after = indices(order@);
                assert forall|k: int| 0 <= k < after.len() implies lo <= #[trigger] after[k]
                    < hi by {
                    if k < before.len() {
                        assert(after[k] == before[k]);
                    }
                }
                assert forall|a: int, b: int| 0 <= a < b < after.len() implies precedes(
                    keys@,
                    #[trigger] after[a],
                    #[trigger] after[b],
                ) by {
                    assert(after[a] == before[a]);
                    if b < before.len() {
                        assert(after[b] == before[b]);
                    } else {
                        assert(precedes(keys@, before[a], r[j - 1]));
                    }
                }
                assert forall|k: int, a: int|
                    0 <= k < after.len() && i <= a < l.len() implies precedes(
                    keys@,
                    #[trigger] after[k],
                    #[trigger] l[a],
                ) by {
                    if k < before.len() {
                        assert(after[k] == before[k]);
                    } else {
                        assert(keys@[l[i as int]] < keys@[r[j - 1]]);
                        if a > i {
                            assert(precedes(keys@, l[i as int], l[a]));
                        }
                    }
                }
                assert forall|k: int, b: int|
                    0 <= k < after.len() && j <= b < r.len() implies precedes(
                    keys@,
                    #[trigger] after[k],
                    #[trigger] r[b],
                ) by {
                    if k < before.len() {
                        assert(after[k] == before[k]);
                    } else {
                        assert(precedes(keys@, r[j - 1], r[b]));
                    }
                }
            }
        }
    }
    order
}

/// The ranking of the keys at the indices from `lo` up to `hi`, by merging
/// the rankings of the two halves of the range.
fn rank_between(keys: &Vec<u64>, lo: usize, hi: usize) -> (order: Vec<usize>)
    requires
        lo <= hi <= keys@.len(),
    ensures
        is_ranking_between(keys@, lo as int, hi as int, indices(order@)),
    decreases hi - lo,
{
    if hi - lo <= 1 {
        let mut order: Vec<usize> = Vec::new();
        if hi - lo == 1 {
            order.push(lo);
        }
        order
    } else {
        let mid: usize = lo + (hi - lo) / 2;
        let left = rank_between(keys, lo, mid);
        let right = rank_between(keys, mid, hi);
        merge(keys, &left, &right, lo, mid, hi)
    }
}

/// The number of places up to which the top of a ranking is found by
/// insertion rather than by ranking all keys.
pub const INSERTION_LIMIT: usize = 32;

/// Ranks the keys and returns the first `limit` places of the ranking, or
/// all of it where there are fewer keys: the indices of the largest keys,
/// largest first, equal keys in the order in which they stand.
pub fn top_indices(keys: &Vec<u64>, limit: usize) -> (order: Vec<usize>)
    ensures
        indices(order@) == top_ranking(keys@, limit as int),
        order@.len() == if limit < keys@.len() { limit as int } else { keys@.len() as int },
        forall|k: int| 0 <= k < order@.len() ==> (#[trigger] order@[k]) < keys@.len(),
{
    if limit <= INSERTION_LIMIT {
        top_by_insertion(keys, limit)
    } else {
        let mut order = rank_between(keys, 0, keys.len());
        let ghost all = indices(order@);
        proof {
            lemma_ranking_unique(keys@, keys@.len() as int, all);
            lemma_ranking_of(keys@, keys@.len() as int);
        }
        if limit < order.len() {
            order.truncate(limit);
            assert(indices(order@) =~= all.take(limit as int));
        }
        assert forall|k: int| 0 <= k < order@.len() implies (#[trigger] order@[k])
            < keys@.len() by {
            assert(indices(order@)[k] == all[k]);
        }
        order
    }
}

} // verus!
