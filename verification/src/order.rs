//! Chronological order: the stable sort of timestamps, and the order of whole
//! shards with the overlaps it leaves.

use vstd::prelude::*;
use crate::timestamp::Timestamp;

verus! {

/// Whether position `a` comes before position `b` in the stable order of `keys`:
/// by its key, and among equal keys by the position itself.
pub open spec fn ranks_before(keys: Seq<Timestamp>, a: int, b: int) -> bool {
    keys[a].before(keys[b]) || (keys[a] == keys[b] && a < b)
}

/// Whether the positions in `order` rise strictly by rank.
pub open spec fn ordered(keys: Seq<Timestamp>, order: Seq<usize>) -> bool {
    forall|i: int, j: int|
        0 <= i < j < order.len() ==> ranks_before(
            keys,
            #[trigger] order[i] as int,
            #[trigger] order[j] as int,
        )
}

/// Whether every entry of `order` lies from `lo` up to `hi`.
pub open spec fn within(order: Seq<usize>, lo: int, hi: int) -> bool {
    forall|i: int| 0 <= i < order.len() ==> lo <= #[trigger] order[i] < hi
}

/// Whether every position from `lo` up to `hi` occurs in `order`.
pub open spec fn covers(order: Seq<usize>, lo: int, hi: int) -> bool {
    forall|k: usize| lo <= k < hi ==> #[trigger] order.contains(k)
}

/// Whether `order` is the stable sort of `keys`: a rearrangement of the positions
/// of `keys` in which keys never fall and equal keys keep their earlier order.
pub open spec fn is_stable_order(keys: Seq<Timestamp>, order: Seq<usize>) -> bool {
    &&& order.len() == keys.len()
    &&& within(order, 0, keys.len() as int)
    &&& covers(order, 0, keys.len() as int)
    &&& ordered(keys, order)
}

/// Decides [`ranks_before`].
fn ranks(keys: &Vec<Timestamp>, a: usize, b: usize) -> (earlier: bool)
    requires
        a < keys.len(),
        b < keys.len(),
    ensures
        earlier == ranks_before(keys@, a as int, b as int),
{
    let left: Timestamp = keys[a];
    let right: Timestamp = keys[b];
    left.is_before(&right) || (left.seconds == right.seconds && left.nanos == right.nanos && a
        < b)
}

/// Merges two ordered runs that share no position into one.
fn merge(keys: &Vec<Timestamp>, left: &Vec<usize>, right: &Vec<usize>) -> (out: Vec<usize>)
    requires
        within(left@, 0, keys.len() as int),
        within(right@, 0, keys.len() as int),
        ordered(keys@, left@),
        ordered(keys@, right@),
        forall|i: int, j: int|
            0 <= i < left.len() && 0 <= j < right.len() ==> #[trigger] left@[i]
                != #[trigger] right@[j],
        left.len() + right.len() <= usize::MAX,
    ensures
        out.len() == left.len() + right.len(),
        ordered(keys@, out@),
        forall|x: usize| out@.contains(x) <==> left@.contains(x) || right@.contains(x),
{
    let mut out: Vec<usize> = Vec::new();
    let mut i: usize = 0;
    let mut j: usize = 0;
    while i < left.len() || j < right.len()
        invariant
            i <= left.len(),
            j <= right.len(),
            out.len() == i + j,
            within(left@, 0, keys.len() as int),
            within(right@, 0, keys.len() as int),
            ordered(keys@, left@),
            ordered(keys@, right@),
            forall|a: int, b: int|
                0 <= a < left.len() && 0 <= b < right.len() ==> #[trigger] left@[a]
                    != #[trigger] right@[b],
            left.len() + right.len() <= usize::MAX,
            ordered(keys@, out@),
            forall|p: int, q: int|
                0 <= p < out.len() && i <= q < left.len() ==> ranks_before(
                    keys@,
                    #[trigger] out@[p] as int,
                    #[trigger] left@[q] as int,
                ),
            forall|p: int, q: int|
                0 <= p < out.len() && j <= q < right.len() ==> ranks_before(
                    keys@,
                    #[trigger] out@[p] as int,
                    #[trigger] right@[q] as int,
                ),
            forall|p: int|
                0 <= p < out.len() ==> left@.contains(#[trigger] out@[p]) || right@.contains(
                    out@[p],
                ),
            forall|q: int| 0 <= q < i ==> out@.contains(#[trigger] left@[q]),
            forall|q: int| 0 <= q < j ==> out@.contains(#[trigger] right@[q]),
        decreases left.len() - i + right.len() - j,
    {
        let ghost before = out@;
        let take_left: bool = j >= right.len() || (i < left.len() && ranks(
            keys,
            left[i],
            right[j],
        ));
        if take_left {
            let x: usize = left[i];
            out.push(x);
            i = i + 1;
            proof {
                assert(left@.contains(x));
                assert forall|p: int, q: int|
                    0 <= p < out.len() && j <= q < right.len() implies ranks_before(
                    keys@,
                    #[trigger] out@[p] as int,
                    #[trigger] right@[q] as int,
                ) by {
                    if p == before.len() {
                        assert(ranks_before(keys@, x as int, right@[j as int] as int));
                    } else {
                        assert(out@[p] == before[p]);
                    }
                }
                assert forall|p: int, q: int|
                    0 <= p < out.len() && i <= q < left.len() implies ranks_before(
                    keys@,
                    #[trigger] out@[p] as int,
                    #[trigger] left@[q] as int,
                ) by {
                    if p < before.len() {
                        assert(out@[p] == before[p]);
                    }
                }
                assert forall|a: int, b: int| 0 <= a < b < out.len() implies ranks_before(
                    keys@,
                    #[trigger] out@[a] as int,
                    #[trigger] out@[b] as int,
                ) by {
                    assert(out@[a] == before[a]);
                    if b < before.len() {
                        assert(out@[b] == before[b]);
                    } else {
                        assert(ranks_before(keys@, before[a] as int, left@[i - 1] as int));
                    }
                }
            }
        } else {
            let x: usize = right[j];
            out.push(x);
            j = j + 1;
            proof {
                assert(right@.contains(x));
                assert forall|p: int, q: int|
                    0 <= p < out.len() && i <= q < left.len() implies ranks_before(
                    keys@,
                    #[trigger] out@[p] as int,
                    #[trigger] left@[q] as int,
                ) by {
                    if p == before.len() {
                        assert(left@[i as int] != right@[j - 1]);
                        assert(ranks_before(keys@, x as int, left@[i as int] as int));
                    } else {
                        assert(out@[p] == before[p]);
                    }
                }
                assert forall|p: int, q: int|
                    0 <= p < out.len() && j <= q < right.len() implies ranks_before(
                    keys@,
                    #[trigger] out@[p] as int,
                    #[trigger] right@[q] as int,
                ) by {
                    if p < before.len() {
                        assert(out@[p] == before[p]);
                    }
                }
                assert forall|a: int, b: int| 0 <= a < b < out.len() implies ranks_before(
                    keys@,
                    #[trigger] out@[a] as int,
                    #[trigger] out@[b] as int,
                ) by {
                    assert(out@[a] == before[a]);
                    if b < before.len() {
                        assert(out@[b] == before[b]);
                    } else {
                        assert(ranks_before(keys@, before[a] as int, right@[j - 1] as int));
                    }
                }
            }
        }
        proof {
            let last = before.len() as int;
            assert(out@[last] == out@.last());
            assert forall|p: int| 0 <= p < out.len() implies left@.contains(#[trigger] out@[p])
                || right@.contains(out@[p]) by {
                if p < last {
                    assert(out@[p] == before[p]);
                }
            }
            assert forall|q: int| 0 <= q < i implies out@.contains(#[trigger] left@[q]) by {
                if take_left && q == i - 1 {
                    assert(out@[last] == left@[q]);
                } else {
                    let w = choose|w: int| 0 <= w < before.len() && before[w] == left@[q];
                    assert(out@[w] == left@[q]);
                }
            }
            assert forall|q: int| 0 <= q < j implies out@.contains(#[trigger] right@[q]) by {
                if !take_left && q == j - 1 {
                    assert(out@[last] == right@[q]);
                } else {
                    let w = choose|w: int| 0 <= w < before.len() && before[w] == right@[q];
                    assert(out@[w] == right@[q]);
                }
            }
        }
    }
    proof {
        assert forall|x: usize| out@.contains(x) <==> left@.contains(x) || right@.contains(
            x,
        ) by {
            if out@.contains(x) {
                let p = choose|p: int| 0 <= p < out@.len() && out@[p] == x;
                assert(left@.contains(out@[p]) || right@.contains(out@[p]));
            }
            if left@.contains(x) {
                let q = choose|q: int| 0 <= q < left@.len() && left@[q] == x;
                assert(out@.contains(left@[q]));
            }
            if right@.contains(x) {
                let q = choose|q: int| 0 <= q < right@.len() && right@[q] == x;
                assert(out@.contains(right@[q]));
            }
        }
    }
    out
}

/// The stable order of the keys from position `lo` up to `hi`.
fn sort_range(keys: &Vec<Timestamp>, lo: usize, hi: usize) -> (out: Vec<usize>)
    requires
        lo <= hi <= keys.len(),
    ensures
        out.len() == hi - lo,
        within(out@, lo as int, hi as int),
        covers(out@, lo as int, hi as int),
        ordered(keys@, out@),
    decreases hi - lo,
{
    let mut out: Vec<usize> = Vec::new();
    if hi - lo == 0 {
        return out;
    }
    if hi - lo == 1 {
        out.push(lo);
        assert(out@[0] == lo);
        return out;
    }
    let mid: usize = lo + (hi - lo) / 2;
    let left = sort_range(keys, lo, mid);
    let right = sort_range(keys, mid, hi);
    out = merge(keys, &left, &right);
    proof {
        assert forall|i: int| 0 <= i < out@.len() implies lo <= #[trigger] out@[i] < hi by {
            assert(out@.contains(out@[i]));
            if left@.contains(out@[i]) {
                let q = choose|q: int| 0 <= q < left@.len() && left@[q] == out@[i];
                assert(lo <= left@[q] < mid);
            } else {
                let q = choose|q: int| 0 <= q < right@.len() && right@[q] == out@[i];
                assert(mid <= right@[q] < hi);
            }
        }
        assert forall|k: usize| lo <= k < hi implies #[trigger] out@.contains(k) by {
            if k < mid {
                assert(left@.contains(k));
            } else {
                assert(right@.contains(k));
            }
        }
    }
    out
}

/// The positions of `keys` in stable order: sorted by key, equal keys in the
/// order they came in.
pub fn stable_order(keys: &Vec<Timestamp>) -> (order: Vec<usize>)
    ensures
        is_stable_order(keys@, order@),
        order@ == sorted_positions(keys@),
{
    let order = sort_range(keys, 0, keys.len());
    proof {
        assert(is_stable_order(keys@, order@));
        assert(is_stable_order(keys@, sorted_positions(keys@)));
        lemma_stable_order_is_unique(keys@, order@, sorted_positions(keys@));
    }
    order
}

/// Two stable orders of the same keys agree on their first `count` places.
proof fn lemma_same_prefix(keys: Seq<Timestamp>, a: Seq<usize>, b: Seq<usize>, count: nat)
    requires
        is_stable_order(keys, a),
        is_stable_order(keys, b),
        count <= keys.len(),
    ensures
        forall|m: int| 0 <= m < count ==> a[m] == b[m],
    decreases count,
{
    if count > 0 {
        lemma_same_prefix(keys, a, b, (count - 1) as nat);
        let m = count - 1;
        if a[m] != b[m] {
            assert(b.contains(a[m]));
            let j = choose|j: int| 0 <= j < b.len() && b[j] == a[m];
            if j < m {
                assert(a[j] == b[j]);
                assert(ranks_before(keys, a[j] as int, a[m] as int));
            }
            assert(ranks_before(keys, b[m] as int, b[j] as int));
            assert(a.contains(b[m]));
            let k = choose|k: int| 0 <= k < a.len() && a[k] == b[m];
            if k < m {
                assert(a[k] == b[k]);
                assert(ranks_before(keys, b[k] as int, b[m] as int));
            }
            assert(ranks_before(keys, a[m] as int, a[k] as int));
        }
    }
}

/// Keys have one stable order only.
pub proof fn lemma_stable_order_is_unique(keys: Seq<Timestamp>, a: Seq<usize>, b: Seq<usize>)
    requires
        is_stable_order(keys, a),
        is_stable_order(keys, b),
    ensures
        a == b,
{
    lemma_same_prefix(keys, a, b, keys.len());
    assert(a =~= b);
}

/// The stable order of `keys`.
pub open spec fn sorted_positions(keys: Seq<Timestamp>) -> Seq<usize> {
    choose|order: Seq<usize>| is_stable_order(keys, order)
}

/// Whether the instants never fall from one to the next.
pub open spec fn chronological(times: Seq<Timestamp>) -> bool {
    forall|i: int, j: int|
        0 <= i < j < times.len() ==> (#[trigger] times[i]).at_or_before(#[trigger] times[j])
}

/// The keys in the order that `order` puts them in.
pub open spec fn arranged(keys: Seq<Timestamp>, order: Seq<usize>) -> Seq<Timestamp> {
    Seq::new(order.len(), |i: int| keys[order[i] as int])
}

/// A stable order is a sort and is stable: taken in that order the keys never
/// fall, records of one instant keep the order they came in, and no position is
/// taken twice or left out.
pub proof fn lemma_stable_order_sorts(keys: Seq<Timestamp>, order: Seq<usize>)
    requires
        is_stable_order(keys, order),
    ensures
        chronological(arranged(keys, order)),
        forall|i: int, j: int|
            0 <= i < j < order.len() && keys[order[i] as int] == keys[order[j] as int]
                ==> #[trigger] order[i] < #[trigger] order[j],
        forall|i: int, j: int|
            0 <= i < j < order.len() ==> #[trigger] order[i] != #[trigger] order[j],
        forall|k: usize| 0 <= k < keys.len() ==> #[trigger] order.contains(k),
{
    assert forall|i: int, j: int| 0 <= i < j < order.len() implies (#[trigger] arranged(
        keys,
        order,
    )[i]).at_or_before(#[trigger] arranged(keys, order)[j]) by {
        assert(ranks_before(keys, order[i] as int, order[j] as int));
    }
    assert forall|i: int, j: int|
        0 <= i < j < order.len() && keys[order[i] as int] == keys[order[j] as int] implies
        #[trigger] order[i] < #[trigger] order[j] by {
        assert(ranks_before(keys, order[i] as int, order[j] as int));
    }
    assert forall|i: int, j: int| 0 <= i < j < order.len() implies #[trigger] order[i]
        != #[trigger] order[j] by {
        assert(ranks_before(keys, order[i] as int, order[j] as int));
    }
}

/// The number of places where an instant is earlier than the one before it.
pub open spec fn inversions(times: Seq<Timestamp>) -> nat
    decreases times.len(),
{
    if times.len() < 2 {
        0
    } else if times.last().before(times[times.len() - 2]) {
        inversions(times.drop_last()) + 1
    } else {
        inversions(times.drop_last())
    }
}

/// Counts the places where a record is earlier than the record before it.
pub fn count_inversions(times: &Vec<Timestamp>) -> (count: usize)
    ensures
        count == inversions(times@),
{
    let n: usize = times.len();
    if n < 2 {
        return 0;
    }
    let mut count: usize = 0;
    let mut i: usize = 1;
    assert(times@.subrange(0, 1).len() < 2);
    while i < n
        invariant
            1 <= i <= n,
            n == times@.len(),
            count == inversions(times@.subrange(0, i as int)),
            count < i,
        decreases n - i,
    {
        let ghost longer = times@.subrange(0, i + 1);
        assert(longer.drop_last() =~= times@.subrange(0, i as int));
        let current: Timestamp = times[i];
        let previous: Timestamp = times[i - 1];
        if current.is_before(&previous) {
            count = count + 1;
        }
        i = i + 1;
    }
    assert(times@.subrange(0, n as int) =~= times@);
    count
}

/// Instants are in chronological order exactly when no place inverts them.
pub proof fn lemma_no_inversions_is_chronological(times: Seq<Timestamp>)
    ensures
        inversions(times) == 0 <==> chronological(times),
    decreases times.len(),
{
    if times.len() >= 2 {
        let shorter = times.drop_last();
        let n = times.len() as int;
        lemma_no_inversions_is_chronological(shorter);
        if inversions(times) == 0 {
            assert(chronological(shorter));
            assert forall|i: int, j: int| 0 <= i < j < n implies (#[trigger] times[i]).at_or_before(
                #[trigger] times[j],
            ) by {
                if j < n - 1 {
                    assert(shorter[i].at_or_before(shorter[j]));
                } else if i < n - 2 {
                    assert(shorter[i].at_or_before(shorter[n - 2]));
                }
            }
        }
        if chronological(times) {
            assert(times[n - 2].at_or_before(times[n - 1]));
            assert forall|i: int, j: int| 0 <= i < j < shorter.len() implies (
            #[trigger] shorter[i]).at_or_before(#[trigger] shorter[j]) by {
                assert(times[i].at_or_before(times[j]));
            }
        }
    }
}

/// The instants of the first and the last record of a shard.
#[derive(Debug, Clone, Copy, PartialEq, Eq, Structural)]
pub struct ShardSpan {
    pub first: Timestamp,
    pub last: Timestamp,
}

/// Two shards that follow each other in the order and overlap in time: the earlier
/// one ends after the later one begins.
#[derive(Debug, Clone, Copy, PartialEq, Eq, Structural)]
pub struct OrderingWarning {
    /// The shard that comes first in the order.
    pub previous: usize,
    /// The shard that comes right after it.
    pub current: usize,
    /// When the first of the two ends.
    pub previous_last: Timestamp,
    /// When the second of the two begins.
    pub current_first: Timestamp,
}

/// The instants that the shards begin at.
pub open spec fn firsts(spans: Seq<ShardSpan>) -> Seq<Timestamp> {
    Seq::new(spans.len(), |i: int| spans[i].first)
}

/// The order of the shards: sorted by the instant each begins at, shards that
/// begin together in the order of their indices.
pub fn resolve_order(spans: &Vec<ShardSpan>) -> (order: Vec<usize>)
    ensures
        is_stable_order(firsts(spans@), order@),
        order@ == sorted_positions(firsts(spans@)),
{
    let n: usize = spans.len();
    let mut keys: Vec<Timestamp> = Vec::new();
    let mut i: usize = 0;
    while i < n
        invariant
            i <= n,
            n == spans@.len(),
            keys@.len() == i,
            forall|k: int| 0 <= k < i ==> #[trigger] keys@[k] == spans@[k].first,
        decreases n - i,
    {
        keys.push(spans[i].first);
        i = i + 1;
    }
    assert(keys@ =~= firsts(spans@));
    stable_order(&keys)
}

/// The warning that the shards at places `k` and `k + 1` of the order give, if
/// they overlap.
pub open spec fn overlap_at(spans: Seq<ShardSpan>, order: Seq<usize>, k: int) -> Option<
    OrderingWarning,
> {
    let previous = order[k];
    let current = order[k + 1];
    if spans[current as int].first.before(spans[previous as int].last) {
        Some(
            OrderingWarning {
                previous,
                current,
                previous_last: spans[previous as int].last,
                current_first: spans[current as int].first,
            },
        )
    } else {
        None
    }
}

/// The warnings of an order, from its start to its end.
pub open spec fn overlaps(spans: Seq<ShardSpan>, order: Seq<usize>) -> Seq<OrderingWarning>
    decreases order.len(),
{
    if order.len() < 2 {
        Seq::empty()
    } else {
        match overlap_at(spans, order, order.len() - 2) {
            Some(warning) => overlaps(spans, order.drop_last()).push(warning),
            None => overlaps(spans, order.drop_last()),
        }
    }
}

/// Walks an order and reports each pair of neighbours that overlap. There is no
/// answer where the order names a shard that `spans` lacks.
pub fn find_overlaps(spans: &Vec<ShardSpan>, order: &Vec<usize>) -> (result: Option<
    Vec<OrderingWarning>,
>)
    ensures
        match result {
            Some(warnings) => within(order@, 0, spans@.len() as int) && warnings@ == overlaps(
                spans@,
                order@,
            ),
            None => !within(order@, 0, spans@.len() as int),
        },
{
    let n: usize = order.len();
    let mut warnings: Vec<OrderingWarning> = Vec::new();
    let mut i: usize = 0;
    while i < n
        invariant
            i <= n,
            n == order@.len(),
            within(order@.subrange(0, i as int), 0, spans@.len() as int),
            warnings@ == overlaps(spans@, order@.subrange(0, i as int)),
        decreases n - i,
    {
        let ghost seen = order@.subrange(0, i as int);
        let ghost longer = order@.subrange(0, i + 1);
        assert(longer.drop_last() =~= seen);
        let current: usize = order[i];
        if current >= spans.len() {
            return None;
        }
        assert forall|k: int| 0 <= k < longer.len() implies 0 <= #[trigger] longer[k]
            < spans@.len() by {
            if k < i {
                assert(longer[k] == seen[k]);
            }
        }
        if i > 0 {
            let previous: usize = order[i - 1];
            assert(previous == seen[i - 1]);
            let begins: Timestamp = spans[current].first;
            let ended: Timestamp = spans[previous].last;
            if begins.is_before(&ended) {
                warnings.push(
                    OrderingWarning {
                        previous,
                        current,
                        previous_last: ended,
                        current_first: begins,
                    },
                );
            }
        }
        i = i + 1;
    }
    assert(order@.subrange(0, n as int) =~= order@);
    Some(warnings)
}

/// Whether `order` arranges the shards `0` up to `count`: it has `count` entries
/// and names each of them.
pub open spec fn is_arrangement(order: Seq<usize>, count: int) -> bool {
    &&& order.len() == count
    &&& within(order, 0, count)
    &&& covers(order, 0, count)
}

/// Decides whether an order table arranges the shards `0` up to `count`.
pub fn is_order_table(order: &Vec<usize>, count: usize) -> (valid: bool)
    ensures
        valid == is_arrangement(order@, count as int),
{
    if order.len() != count {
        return false;
    }
    let mut seen: Vec<bool> = Vec::new();
    let mut k: usize = 0;
    while k < count
        invariant
            k <= count,
            seen@.len() == k,
            forall|p: int| 0 <= p < k ==> !#[trigger] seen@[p],
        decreases count - k,
    {
        seen.push(false);
        k = k + 1;
    }
    let mut i: usize = 0;
    while i < count
        invariant
            i <= count,
            count == order@.len(),
            seen@.len() == count,
            within(order@.subrange(0, i as int), 0, count as int),
            forall|p: int|
                0 <= p < count ==> (#[trigger] seen@[p] <==> order@.subrange(0, i as int).contains(
                    p as usize,
                )),
        decreases count - i,
    {
        let ghost before = order@.subrange(0, i as int);
        let ghost after = order@.subrange(0, i + 1);
        let entry: usize = order[i];
        if entry >= count {
            return false;
        }
        seen[entry] = true;
        proof {
            assert(after.drop_last() =~= before);
            assert(after[i as int] == entry);
            assert forall|p: int| 0 <= p < after.len() implies 0 <= #[trigger] after[p]
                < count by {
                if p < i {
                    assert(after[p] == before[p]);
                }
            }
            assert forall|p: int| 0 <= p < count implies (#[trigger] seen@[p] <==> after.contains(
                p as usize,
            )) by {
                if before.contains(p as usize) {
                    let w = choose|w: int| 0 <= w < before.len() && before[w] == p as usize;
                    assert(after[w] == p as usize);
                }
                if after.contains(p as usize) && p != entry {
                    let w = choose|w: int| 0 <= w < after.len() && after[w] == p as usize;
                    assert(before[w] == p as usize);
                }
            }
        }
        i = i + 1;
    }
    assert(order@.subrange(0, count as int) =~= order@);
    let mut j: usize = 0;
    while j < count
        invariant
            j <= count,
            seen@.len() == count,
            forall|p: int|
                0 <= p < count ==> (#[trigger] seen@[p] <==> order@.contains(p as usize)),
            forall|p: usize| 0 <= p < j ==> #[trigger] order@.contains(p),
        decreases count - j,
    {
        if !seen[j] {
            assert(!order@.contains(j));
            return false;
        }
        assert(seen@[j as int]);
        j = j + 1;
    }
    true
}

/// Whether shard `a` lies before shard `b` in time: it ends no later than `b`
/// begins, and begins earlier.
pub open spec fn precedes(a: ShardSpan, b: ShardSpan) -> bool {
    a.last.at_or_before(b.first) && a.first.before(b.first)
}

/// Whether the shards lie apart in time: of any two, one lies before the other.
pub open spec fn apart(spans: Seq<ShardSpan>) -> bool {
    forall|a: int, b: int|
        0 <= a < spans.len() && 0 <= b < spans.len() && a != b ==> precedes(
            #[trigger] spans[a],
            #[trigger] spans[b],
        ) || precedes(spans[b], spans[a])
}

/// Whether every shard holds a record and is in chronological order.
pub open spec fn shards_sorted(shards: Seq<Seq<Timestamp>>) -> bool {
    forall|s: int|
        0 <= s < shards.len() ==> (#[trigger] shards[s]).len() > 0 && chronological(shards[s])
}

/// The span of each shard, from the instants of its records.
pub open spec fn spans_of(shards: Seq<Seq<Timestamp>>) -> Seq<ShardSpan> {
    Seq::new(shards.len(), |s: int| ShardSpan { first: shards[s].first(), last: shards[s].last() })
}

/// The records of the shards one after another, the shards taken in `order`.
pub open spec fn concatenated(shards: Seq<Seq<Timestamp>>, order: Seq<usize>) -> Seq<Timestamp>
    decreases order.len(),
{
    if order.len() == 0 {
        Seq::empty()
    } else {
        concatenated(shards, order.drop_last()) + shards[order.last() as int]
    }
}

/// An order has no warnings exactly when no pair of neighbours in it overlaps.
pub proof fn lemma_overlaps_empty(spans: Seq<ShardSpan>, order: Seq<usize>)
    ensures
        overlaps(spans, order).len() == 0 <==> (forall|k: int|
            0 <= k < order.len() - 1 ==> #[trigger] overlap_at(spans, order, k) is None),
    decreases order.len(),
{
    if order.len() >= 2 {
        let shorter = order.drop_last();
        lemma_overlaps_empty(spans, shorter);
        assert forall|k: int| 0 <= k < shorter.len() - 1 implies #[trigger] overlap_at(
            spans,
            shorter,
            k,
        ) == overlap_at(spans, order, k) by {
            assert(shorter[k] == order[k]);
            assert(shorter[k + 1] == order[k + 1]);
        }
        if overlaps(spans, order).len() == 0 {
            assert(overlap_at(spans, order, order.len() - 2) is None);
            assert forall|k: int| 0 <= k < order.len() - 1 implies #[trigger] overlap_at(
                spans,
                order,
                k,
            ) is None by {
                if k < order.len() - 2 {
                    assert(overlap_at(spans, shorter, k) is None);
                }
            }
        }
        if forall|k: int| 0 <= k < order.len() - 1 ==> #[trigger] overlap_at(spans, order, k) is None {
            assert(overlap_at(spans, order, order.len() - 2) is None);
            assert forall|k: int| 0 <= k < shorter.len() - 1 implies #[trigger] overlap_at(
                spans,
                shorter,
                k,
            ) is None by {
                assert(overlap_at(spans, order, k) is None);
            }
        }
    }
}

/// Shards that lie apart in time, put in the resolved order, give no warning.
pub proof fn lemma_apart_shards_do_not_overlap(spans: Seq<ShardSpan>, order: Seq<usize>)
    requires
        apart(spans),
        is_stable_order(firsts(spans), order),
    ensures
        overlaps(spans, order) == Seq::<OrderingWarning>::empty(),
{
    lemma_overlaps_empty(spans, order);
    assert forall|k: int| 0 <= k < order.len() - 1 implies #[trigger] overlap_at(
        spans,
        order,
        k,
    ) is None by {
        let previous = order[k] as int;
        let current = order[k + 1] as int;
        assert(ranks_before(firsts(spans), previous, current));
        assert(previous != current);
        assert(precedes(spans[previous], spans[current]) || precedes(
            spans[current],
            spans[previous],
        ));
    }
    assert(overlaps(spans, order) =~= Seq::<OrderingWarning>::empty());
}

/// Sorted shards taken in an order without warnings give one chronological run of
/// records, which ends with the last record of the last shard.
pub proof fn lemma_order_without_overlap_is_chronological(
    shards: Seq<Seq<Timestamp>>,
    order: Seq<usize>,
)
    requires
        shards_sorted(shards),
        within(order, 0, shards.len() as int),
        overlaps(spans_of(shards), order).len() == 0,
    ensures
        chronological(concatenated(shards, order)),
        order.len() > 0 ==> forall|i: int|
            0 <= i < concatenated(shards, order).len() ==> (#[trigger] concatenated(
                shards,
                order,
            )[i]).at_or_before(shards[order.last() as int].last()),
    decreases order.len(),
{
    if order.len() > 0 {
        let spans = spans_of(shards);
        let shorter = order.drop_last();
        let head = concatenated(shards, shorter);
        let current = shards[order.last() as int];
        let all = concatenated(shards, order);
        lemma_overlaps_empty(spans, order);
        lemma_overlaps_empty(spans, shorter);
        assert forall|k: int| 0 <= k < shorter.len() - 1 implies #[trigger] overlap_at(
            spans,
            shorter,
            k,
        ) is None by {
            assert(shorter[k] == order[k]);
            assert(shorter[k + 1] == order[k + 1]);
            assert(overlap_at(spans, order, k) is None);
        }
        assert forall|k: int| 0 <= k < shorter.len() implies 0 <= #[trigger] shorter[k]
            < shards.len() by {
            assert(shorter[k] == order[k]);
        }
        lemma_order_without_overlap_is_chronological(shards, shorter);
        assert(0 <= order[order.len() - 1] < shards.len());
        assert(current.len() > 0 && chronological(current));
        assert forall|k: int| 0 <= k < current.len() implies current[0].at_or_before(
            #[trigger] current[k],
        ) && current[k].at_or_before(current[current.len() - 1]) by {
            if 0 < k {
                assert(current[0].at_or_before(current[k]));
            }
            if k < current.len() - 1 {
                assert(current[k].at_or_before(current[current.len() - 1]));
            }
        }
        if shorter.len() > 0 {
            assert(overlap_at(spans, order, order.len() - 2) is None);
            assert(shorter.last() == order[order.len() - 2]);
            assert(0 <= order[order.len() - 2] < shards.len());
            let previous = shards[shorter.last() as int];
            assert(previous.last().at_or_before(current[0]));
        }
        assert forall|i: int, j: int| 0 <= i < j < all.len() implies (#[trigger] all[i]).at_or_before(
            #[trigger] all[j],
        ) by {
            if j < head.len() {
                assert(head[i].at_or_before(head[j]));
            } else if i >= head.len() {
                assert(current[i - head.len()].at_or_before(current[j - head.len()]));
            } else {
                assert(head[i].at_or_before(shards[shorter.last() as int].last()));
                assert(current[0].at_or_before(current[j - head.len()]));
            }
        }
        assert forall|i: int| 0 <= i < all.len() implies (#[trigger] all[i]).at_or_before(
            current.last(),
        ) by {
            if i < head.len() {
                assert(head[i].at_or_before(shards[shorter.last() as int].last()));
            } else {
                assert(current[i - head.len()].at_or_before(current[current.len() - 1]));
            }
        }
    }
}

/// Sorted shards that lie apart in time, put in the resolved order, give no
/// warning, and their records one after another are in chronological order.
pub proof fn lemma_resolved_order_is_chronological(
    shards: Seq<Seq<Timestamp>>,
    order: Seq<usize>,
)
    requires
        shards_sorted(shards),
        apart(spans_of(shards)),
        is_stable_order(firsts(spans_of(shards)), order),
    ensures
        is_arrangement(order, shards.len() as int),
        overlaps(spans_of(shards), order) == Seq::<OrderingWarning>::empty(),
        chronological(concatenated(shards, order)),
{
    lemma_apart_shards_do_not_overlap(spans_of(shards), order);
    lemma_order_without_overlap_is_chronological(shards, order);
}

} // verus!
