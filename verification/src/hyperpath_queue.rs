use vstd::prelude::*;

verus! {

/// Position of the parent of heap slot `c` (for `c >= 1`).
pub open spec fn parent(c: int) -> int {
    (c - 1) / 2
}

/// Heap order on every edge of `k` whose upper end is at slot `lo` or
/// further along.
spec fn ordered_from(k: Seq<u64>, lo: int) -> bool {
    forall|c: int| 1 <= c < k.len() && parent(c) >= lo ==> k[parent(c)] <= #[trigger] k[c]
}

/// What holds while the key at slot `cur` travels down: every edge from
/// `lo` on is ordered but those leaving `cur`, and the parent of `cur` is
/// no larger than the children of `cur`.
spec fn down_ok(k: Seq<u64>, lo: int, cur: int) -> bool {
    &&& 0 <= lo <= cur <= k.len()
    &&& forall|c: int|
        1 <= c < k.len() && parent(c) >= lo && parent(c) != cur ==> k[parent(c)] <= #[trigger] k[c]
    &&& cur > lo ==> {
        &&& parent(cur) >= lo
        &&& forall|c: int| 1 <= c < k.len() && parent(c) == cur ==> k[parent(cur)] <= #[trigger] k[c]
    }
}

/// What holds while the key at slot `cur` travels up: every edge is ordered
/// but the one entering `cur`, and the parent of `cur` is no larger than the
/// children of `cur`.
spec fn up_ok(k: Seq<u64>, cur: int) -> bool {
    &&& 0 <= cur < k.len()
    &&& forall|c: int| 1 <= c < k.len() && c != cur ==> k[parent(c)] <= #[trigger] k[c]
    &&& cur > 0 ==> forall|c: int| 1 <= c < k.len() && parent(c) == cur ==> k[parent(cur)] <= #[trigger] k[c]
}

/// `k` with the keys at slots `i` and `j` exchanged.
spec fn swapped(k: Seq<u64>, i: int, j: int) -> Seq<u64> {
    k.update(i, k[j]).update(j, k[i])
}

/// Swapping the key at `cur` with its smallest child moves the hole down.
proof fn lemma_down_step(k: Seq<u64>, lo: int, cur: int, s: int)
    requires
        down_ok(k, lo, cur),
        0 <= cur < s < k.len(),
        parent(s) == cur,
        k[s] <= k[cur],
        forall|c: int| 1 <= c < k.len() && parent(c) == cur ==> k[s] <= #[trigger] k[c],
    ensures
        down_ok(swapped(k, cur, s), lo, s),
{
    let k2 = swapped(k, cur, s);
    assert forall|c: int|
        1 <= c < k2.len() && parent(c) >= lo && parent(c) != s implies k2[parent(c)] <= #[trigger] k2[c] by {
        if c == cur {
            assert(k[parent(cur)] <= k[s]);
        }
    }
    assert forall|c: int| 1 <= c < k2.len() && parent(c) == s implies k2[parent(s)] <= #[trigger] k2[c] by {
        assert(k[s] <= k[cur]);
    }
}

/// A key no larger than its children closes the hole.
proof fn lemma_down_stop(k: Seq<u64>, lo: int, cur: int)
    requires
        down_ok(k, lo, cur),
        forall|c: int| 1 <= c < k.len() && parent(c) == cur ==> k[cur] <= #[trigger] k[c],
    ensures
        ordered_from(k, lo),
{
}

/// Swapping the key at `cur` with a larger-or-equal parent moves the hole up.
proof fn lemma_up_step(k: Seq<u64>, cur: int)
    requires
        up_ok(k, cur),
        cur > 0,
        k[cur] <= k[parent(cur)],
    ensures
        up_ok(swapped(k, cur, parent(cur)), parent(cur)),
{
    let p = parent(cur);
    let k2 = swapped(k, cur, p);
    assert forall|c: int| 1 <= c < k2.len() && c != p implies k2[parent(c)] <= #[trigger] k2[c] by {
        if parent(c) == p && c != cur {
            assert(k[p] <= k[c]);
        }
        if parent(c) == cur {
            assert(k[parent(cur)] <= k[c]);
        }
    }
    if p > 0 {
        assert forall|c: int| 1 <= c < k2.len() && parent(c) == p implies k2[parent(p)] <= #[trigger] k2[c] by {
            assert(k[parent(p)] <= k[p]);
            if c != cur {
                assert(k[p] <= k[c]);
            }
        }
    }
}

/// A key no smaller than its parent, or at the root, closes the hole.
proof fn lemma_up_stop(k: Seq<u64>, cur: int)
    requires
        up_ok(k, cur),
        cur > 0 ==> k[parent(cur)] <= k[cur],
    ensures
        ordered_from(k, 0),
{
}

/// The root key is no larger than any key of a heap-ordered sequence.
proof fn lemma_root_min(k: Seq<u64>, p: int)
    requires
        ordered_from(k, 0),
        0 <= p < k.len(),
    ensures
        k[0] <= k[p],
    decreases p,
{
    if p > 0 {
        lemma_root_min(k, parent(p));
        assert(k[parent(p)] <= k[p]);
    }
}

/// Lowering one key of a heap leaves a hole that travels up.
proof fn lemma_decrease(k: Seq<u64>, idx: int, v: u64)
    requires
        ordered_from(k, 0),
        0 <= idx < k.len(),
        v <= k[idx],
    ensures
        up_ok(k.update(idx, v), idx),
{
    let k2 = k.update(idx, v);
    if idx > 0 {
        assert forall|c: int| 1 <= c < k2.len() && parent(c) == idx implies k2[parent(idx)]
            <= #[trigger] k2[c] by {
            assert(k[parent(idx)] <= k[idx]);
            assert(k[idx] <= k[c]);
        }
    }
}

/// Raising one key of a heap leaves a hole that travels down.
proof fn lemma_increase(k: Seq<u64>, idx: int, v: u64)
    requires
        ordered_from(k, 0),
        0 <= idx < k.len(),
        v >= k[idx],
    ensures
        down_ok(k.update(idx, v), 0, idx),
{
    let k2 = k.update(idx, v);
    if idx > 0 {
        assert(parent(idx) >= 0);
        assert forall|c: int| 1 <= c < k2.len() && parent(c) == idx implies k2[parent(idx)]
            <= #[trigger] k2[c] by {
            assert(k[parent(idx)] <= k[idx]);
            assert(k[idx] <= k[c]);
        }
    }
}

/// `h` with the ids at slots `i` and `j` exchanged.
pub open spec fn swap_slots(h: Seq<usize>, i: int, j: int) -> Seq<usize> {
    h.update(i, h[j]).update(j, h[i])
}

/// The slot that the id at slot `i` trades places with when it moves down
/// the heap `h`, entry keys being `key`: the left child when its key is no
/// larger, then the right child when its key is no larger than that one;
/// `i` itself when neither.
pub open spec fn down_target(h: Seq<usize>, key: Seq<u64>, i: int) -> int {
    let l = 2 * i + 1;
    let r = 2 * i + 2;
    let s1 = if l < h.len() && key[h[l] as int] <= key[h[i] as int] {
        l
    } else {
        i
    };
    if r < h.len() && key[h[r] as int] <= key[h[s1] as int] {
        r
    } else {
        s1
    }
}

/// The heap `h` after the id at slot `i` has moved down as far as it goes.
pub open spec fn sifted_down(h: Seq<usize>, key: Seq<u64>, i: int) -> Seq<usize>
    decreases h.len() - i,
{
    let s = down_target(h, key, i);
    if 0 <= i < s < h.len() {
        sifted_down(swap_slots(h, i, s), key, s)
    } else {
        h
    }
}

/// The heap `h` after the id at slot `i` has moved up as far as it goes: it
/// trades places with its parent while its key is no larger.
pub open spec fn sifted_up(h: Seq<usize>, key: Seq<u64>, i: int) -> Seq<usize>
    decreases i,
{
    if 0 < i < h.len() && key[h[i] as int] <= key[h[parent(i)] as int] {
        sifted_up(swap_slots(h, i, parent(i)), key, parent(i))
    } else {
        h
    }
}

/// The heap `h` after the ids at slots `i - 1` down to `0` have each moved
/// down in turn.
pub open spec fn heapified(h: Seq<usize>, key: Seq<u64>, i: int) -> Seq<usize>
    decreases i,
{
    if i <= 0 {
        h
    } else {
        heapified(sifted_down(h, key, i - 1), key, i - 1)
    }
}

/// The slot that holds id `id` in `h`.
pub open spec fn slot_of(h: Seq<usize>, id: usize) -> int {
    choose|p: int| 0 <= p < h.len() && h[p] == id
}

/// One queued link: its index in the solver's link arrays, its key, and its
/// current slot in the heap (`None` once it has been popped).
struct PqEntry {
    link: usize,
    priority: u64,
    index: Option<usize>,
}

/// Binary min-heap over links keyed by `u64` priorities.
///
/// Entries live in an arena and are referred to by their arena id, which is
/// the order in which they were pushed. Every entry remembers its heap slot,
/// so that the key of a queued entry can be changed in place.
pub struct PriorityQueue {
    /// Arena of all entries; an entry id is its position in this vector
    entries: Vec<PqEntry>,
    /// Heap of entry ids ordered by priority
    heap: Vec<usize>,
}

/// Entries `0..n` carry the same links in `b` as in `a`.
pub open spec fn same_links(a: &PriorityQueue, b: &PriorityQueue, n: int) -> bool {
    forall|j: int| 0 <= j < n ==> #[trigger] b.link_of(j) == a.link_of(j)
}

/// Entries `0..n`, but entry `x`, have the same key in `b` as in `a`.
pub open spec fn same_keys_except(a: &PriorityQueue, b: &PriorityQueue, n: int, x: int) -> bool {
    forall|j: int| 0 <= j < n && j != x ==> #[trigger] b.priority_of(j) == a.priority_of(j)
}

/// Entries `0..n`, but entry `x`, are queued in `b` exactly when in `a`.
pub open spec fn same_queued_except(a: &PriorityQueue, b: &PriorityQueue, n: int, x: int) -> bool {
    forall|j: int| 0 <= j < n && j != x ==> #[trigger] b.is_queued(j) == a.is_queued(j)
}

/// What one pop does: with nothing queued it returns `None` and changes
/// nothing; otherwise it takes the entry at the front of the heap out of the
/// queue and leaves every other entry as it was. In a heap-ordered queue
/// the entry taken has the smallest key, and the heap order is kept.
pub open spec fn pop_effect(pre: &PriorityQueue, post: &PriorityQueue, r: Option<usize>) -> bool {
    match r {
        None => pre.pending().len() == 0 && *post == *pre,
        Some(id) => {
            &&& pre.pending().len() > 0
            &&& id == pre.pending()[0]
            &&& id < pre.num_entries()
            &&& pre.is_queued(id as int)
            &&& !post.is_queued(id as int)
            &&& post.pending().len() + 1 == pre.pending().len()
            &&& post.num_entries() == pre.num_entries()
            &&& same_links(pre, post, pre.num_entries() as int)
            &&& same_keys_except(pre, post, pre.num_entries() as int, -1)
            &&& same_queued_except(pre, post, pre.num_entries() as int, id as int)
            &&& post.pending() == sifted_down(
                pre.pending().update(0, pre.pending().last()).drop_last(),
                pre.keys_by_id(),
                0,
            )
            &&& pre.is_heap() ==> {
                &&& post.is_heap()
                &&& forall|j: int| #[trigger] pre.is_queued(j) ==> pre.priority_of(id as int) <= pre.priority_of(j)
            }
        },
    }
}

/// What one key update does: an entry already popped is left as it is and
/// nothing changes; a queued entry gets the new key, and nothing else
/// changes but the heap order, which is kept.
pub open spec fn update_effect(pre: &PriorityQueue, post: &PriorityQueue, id: usize, priority: u64) -> bool {
    &&& !pre.is_queued(id as int) ==> *post == *pre
    &&& pre.is_queued(id as int) ==> {
        &&& post.priority_of(id as int) == priority
        &&& post.num_entries() == pre.num_entries()
        &&& post.pending().len() == pre.pending().len()
        &&& same_links(pre, post, pre.num_entries() as int)
        &&& same_keys_except(pre, post, pre.num_entries() as int, id as int)
        &&& same_queued_except(pre, post, pre.num_entries() as int, -1)
        &&& post.pending() == if priority <= pre.priority_of(id as int) {
            sifted_up(pre.pending(), pre.keys_by_id().update(id as int, priority), slot_of(pre.pending(), id))
        } else {
            sifted_down(pre.pending(), pre.keys_by_id().update(id as int, priority), slot_of(pre.pending(), id))
        }
        &&& pre.is_heap() ==> post.is_heap()
    }
}

/// Keys leave a heap-ordered queue in non-decreasing order: of two
/// successive pops with nothing changed in between, the second key is no
/// smaller than the first.
pub proof fn lemma_pop_order(
    q0: &PriorityQueue,
    q1: &PriorityQueue,
    q2: &PriorityQueue,
    a: usize,
    b: usize,
)
    requires
        q0.is_heap(),
        pop_effect(q0, q1, Some(a)),
        pop_effect(q1, q2, Some(b)),
    ensures
        q0.priority_of(a as int) <= q1.priority_of(b as int),
        q1.is_heap(),
{
    assert(b != a);
    assert(q0.is_queued(b as int) == q1.is_queued(b as int));
    assert(q1.priority_of(b as int) == q0.priority_of(b as int));
}

/// `b` has the entries of `a`, with the same links and keys.
pub open spec fn same_entries(a: &PriorityQueue, b: &PriorityQueue) -> bool {
    &&& b.num_entries() == a.num_entries()
    &&& same_links(a, b, a.num_entries() as int)
    &&& same_keys_except(a, b, a.num_entries() as int, -1)
}

/// A run of pops: `qs[t + 1]` is what popping `qs[t]` leaves, and `rs[t]`
/// is what that pop returned.
pub open spec fn pop_run(qs: Seq<PriorityQueue>, rs: Seq<Option<usize>>) -> bool {
    &&& qs.len() == rs.len() + 1
    &&& forall|t: int| 0 <= t < qs.len() ==> (#[trigger] qs[t]).wf()
    &&& forall|t: int| 0 <= t < rs.len() ==> pop_effect(&qs[t], &qs[t + 1], #[trigger] rs[t])
}

/// What holds after the first `t` pops of a run that starts from a
/// heap-ordered queue.
spec fn drain_inv(qs: Seq<PriorityQueue>, rs: Seq<Option<usize>>, t: int) -> bool {
    let q0 = qs[0];
    let n = q0.num_entries() as int;
    &&& qs[t].is_heap()
    &&& qs[t].num_entries() == q0.num_entries()
    &&& qs[t].pending().len() + t == q0.pending().len()
    &&& same_links(&q0, &qs[t], n)
    &&& same_keys_except(&q0, &qs[t], n, -1)
    &&& forall|s: int| 0 <= s < t ==> (#[trigger] rs[s]) is Some
    &&& forall|j: int|
        #[trigger] qs[t].is_queued(j) <==> (q0.is_queued(j) && forall|s: int|
            0 <= s < t ==> #[trigger] rs[s] != Some(j as usize))
    &&& forall|s: int, j: int|
        #![trigger qs[t].is_queued(j), rs[s]]
        0 <= s < t && qs[t].is_queued(j) ==> q0.priority_of(rs[s]->0 as int) <= q0.priority_of(j)
}

#[verifier::spinoff_prover]
proof fn lemma_drain_inv(qs: Seq<PriorityQueue>, rs: Seq<Option<usize>>, t: int)
    requires
        pop_run(qs, rs),
        qs[0].is_heap(),
        0 <= t < qs.len(),
        t <= qs[0].pending().len(),
    ensures
        drain_inv(qs, rs, t),
    decreases t,
{
    let q0 = qs[0];
    let n = q0.num_entries() as int;
    if t == 0 {
        assert(same_links(&q0, &qs[0], n));
        assert(same_keys_except(&q0, &qs[0], n, -1));
    } else {
        lemma_drain_inv(qs, rs, t - 1);
        let pre = qs[t - 1];
        let post = qs[t];
        assert(pop_effect(&pre, &post, rs[t - 1]));
        assert(pre.pending().len() > 0);
        let id = rs[t - 1]->0;
        assert forall|s: int| 0 <= s < t implies (#[trigger] rs[s]) is Some by {}
        assert forall|j: int|
            #[trigger] post.is_queued(j) <==> (q0.is_queued(j) && forall|s: int|
                0 <= s < t ==> #[trigger] rs[s] != Some(j as usize)) by {
            if post.is_queued(j) {
                assert(0 <= j < n);
                assert(j != id);
                assert(pre.is_queued(j));
            }
            if q0.is_queued(j) && forall|s: int| 0 <= s < t ==> #[trigger] rs[s] != Some(j as usize) {
                assert(rs[t - 1] != Some(j as usize));
                assert(0 <= j < n);
                assert(pre.is_queued(j));
            }
        }
        assert forall|s: int, j: int|
            #![trigger post.is_queued(j), rs[s]]
            0 <= s < t && post.is_queued(j) implies q0.priority_of(rs[s]->0 as int) <= q0.priority_of(j) by {
            assert(0 <= j < n);
            assert(j != id);
            assert(pre.is_queued(j));
            if s == t - 1 {
                assert(pre.priority_of(id as int) <= pre.priority_of(j));
                assert(pre.priority_of(id as int) == q0.priority_of(id as int));
                assert(pre.priority_of(j) == q0.priority_of(j));
            }
        }
        assert forall|j: int| 0 <= j < n implies #[trigger] post.link_of(j) == q0.link_of(j) by {
            assert(pre.link_of(j) == q0.link_of(j));
        }
        assert forall|j: int| 0 <= j < n && j != -1 implies #[trigger] post.priority_of(j) == q0.priority_of(j) by {
            assert(pre.priority_of(j) == q0.priority_of(j));
        }
    }
}

/// Draining a heap-ordered queue: popping it once more than it holds
/// entries returns every queued id exactly once, in non-decreasing key
/// order, then `None`; the entries keep their links and keys throughout.
pub proof fn lemma_drain(qs: Seq<PriorityQueue>, rs: Seq<Option<usize>>)
    requires
        pop_run(qs, rs),
        qs[0].is_heap(),
        rs.len() == qs[0].pending().len() + 1,
    ensures
        rs[rs.len() - 1] is None,
        forall|t: int|
            0 <= t < rs.len() - 1 ==> (#[trigger] rs[t]) is Some && qs[0].is_queued(rs[t]->0 as int),
        forall|s: int, t: int|
            0 <= s < t < rs.len() - 1 ==> #[trigger] rs[s] != #[trigger] rs[t],
        forall|s: int, t: int|
            #![trigger rs[s], rs[t]]
            0 <= s <= t < rs.len() - 1 ==> qs[0].priority_of(rs[s]->0 as int) <= qs[0].priority_of(
                rs[t]->0 as int,
            ),
        forall|j: int|
            #[trigger] qs[0].is_queued(j) ==> exists|t: int| 0 <= t < rs.len() - 1 && rs[t] == Some(j as usize),
        forall|t: int| 0 <= t < qs.len() ==> same_entries(&qs[0], &#[trigger] qs[t]),
{
    let q0 = qs[0];
    let m = q0.pending().len() as int;
    lemma_drain_inv(qs, rs, m);
    let last = qs[m];
    assert(pop_effect(&last, &qs[m + 1], rs[m]));
    assert(rs[m] is None);
    assert forall|t: int| 0 <= t < qs.len() implies same_entries(&qs[0], &#[trigger] qs[t]) by {
        if t <= m {
            lemma_drain_inv(qs, rs, t);
        } else {
            assert(qs[t] == last);
        }
    }
    assert forall|t: int| 0 <= t < m implies (#[trigger] rs[t]) is Some && q0.is_queued(rs[t]->0 as int) by {
        lemma_drain_inv(qs, rs, t);
        assert(pop_effect(&qs[t], &qs[t + 1], rs[t]));
        assert(qs[t].pending().len() > 0);
        let id = rs[t]->0;
        assert(qs[t].is_queued(id as int));
    }
    assert forall|s: int, t: int| 0 <= s < t < m implies #[trigger] rs[s] != #[trigger] rs[t] by {
        lemma_drain_inv(qs, rs, t);
        assert(pop_effect(&qs[t], &qs[t + 1], rs[t]));
        assert(qs[t].pending().len() > 0);
        let id = rs[t]->0;
        assert(qs[t].is_queued(id as int));
        assert(rs[s] != Some(id));
    }
    assert forall|s: int, t: int|
        #![trigger rs[s], rs[t]]
        0 <= s <= t < m implies q0.priority_of(rs[s]->0 as int) <= q0.priority_of(rs[t]->0 as int) by {
        if s < t {
            lemma_drain_inv(qs, rs, t);
            assert(pop_effect(&qs[t], &qs[t + 1], rs[t]));
            assert(qs[t].pending().len() > 0);
            let id = rs[t]->0;
            assert(qs[t].is_queued(id as int));
        }
    }
    assert forall|j: int| #[trigger] q0.is_queued(j) implies exists|t: int|
        0 <= t < m && rs[t] == Some(j as usize) by {
        if !exists|t: int| 0 <= t < m && rs[t] == Some(j as usize) {
            assert forall|s: int| 0 <= s < m implies #[trigger] rs[s] != Some(j as usize) by {}
            assert(last.is_queued(j));
            last.lemma_pending();
            assert(0 <= j < q0.num_entries());
            assert(last.pending().contains(j as usize));
            assert(last.pending().len() == 0);
        }
    }
}

/// One step of a run of operations: `None` is a pop that returned `r`;
/// `Some((id, key))` is an update of the key of entry `id` to `key`.
pub open spec fn run_step(
    pre: &PriorityQueue,
    post: &PriorityQueue,
    op: Option<(usize, u64)>,
    r: Option<usize>,
) -> bool {
    match op {
        None => pop_effect(pre, post, r),
        Some(u) => u.0 < pre.num_entries() && update_effect(pre, post, u.0, u.1),
    }
}

/// A run of pops and key updates: `qs[t + 1]` is what step `ops[t]` leaves of
/// `qs[t]`, and `rs[t]` is what a pop step returned.
pub open spec fn op_run(qs: Seq<PriorityQueue>, ops: Seq<Option<(usize, u64)>>, rs: Seq<Option<usize>>) -> bool {
    &&& qs.len() == ops.len() + 1
    &&& rs.len() == ops.len()
    &&& forall|t: int| 0 <= t < qs.len() ==> (#[trigger] qs[t]).wf()
    &&& forall|t: int| 0 <= t < ops.len() ==> run_step(&qs[t], &qs[t + 1], #[trigger] ops[t], rs[t])
}

/// The key that step `s` took out of the queue, if step `s` is a pop that
/// returned an entry.
pub open spec fn popped_key(
    qs: Seq<PriorityQueue>,
    ops: Seq<Option<(usize, u64)>>,
    rs: Seq<Option<usize>>,
    s: int,
) -> Option<u64> {
    if ops[s] is None && rs[s] is Some {
        Some(qs[s].priority_of(rs[s]->0 as int))
    } else {
        None
    }
}

/// No update of the run sets a key below one already popped.
pub open spec fn updates_not_below_popped(
    qs: Seq<PriorityQueue>,
    ops: Seq<Option<(usize, u64)>>,
    rs: Seq<Option<usize>>,
) -> bool {
    forall|s: int, u: int|
        #![trigger popped_key(qs, ops, rs, s), ops[u]]
        0 <= s < u < ops.len() && ops[u] is Some && popped_key(qs, ops, rs, s) is Some ==> (ops[u]->0).1
            >= popped_key(qs, ops, rs, s)->0
}

/// What holds after the first `t` steps: the heap order, and no queued key
/// below a key already popped.
spec fn floor_inv(qs: Seq<PriorityQueue>, ops: Seq<Option<(usize, u64)>>, rs: Seq<Option<usize>>, t: int) -> bool {
    &&& qs[t].is_heap()
    &&& forall|s: int, j: int|
        #![trigger popped_key(qs, ops, rs, s), qs[t].is_queued(j)]
        0 <= s < t && popped_key(qs, ops, rs, s) is Some && qs[t].is_queued(j) ==> popped_key(qs, ops, rs, s)->0
            <= qs[t].priority_of(j)
}

proof fn lemma_floor_inv(qs: Seq<PriorityQueue>, ops: Seq<Option<(usize, u64)>>, rs: Seq<Option<usize>>, t: int)
    requires
        op_run(qs, ops, rs),
        qs[0].is_heap(),
        updates_not_below_popped(qs, ops, rs),
        0 <= t < qs.len(),
    ensures
        floor_inv(qs, ops, rs, t),
    decreases t,
{
    if t > 0 {
        lemma_floor_inv(qs, ops, rs, t - 1);
        let pre = qs[t - 1];
        let post = qs[t];
        assert(run_step(&pre, &post, ops[t - 1], rs[t - 1]));
        let n = pre.num_entries() as int;
        match ops[t - 1] {
            None => {
                match rs[t - 1] {
                    None => {},
                    Some(id) => {
                        assert forall|s: int, j: int|
                            #![trigger popped_key(qs, ops, rs, s), post.is_queued(j)]
                            0 <= s < t && popped_key(qs, ops, rs, s) is Some && post.is_queued(j) implies popped_key(
                                qs,
                                ops,
                                rs,
                                s,
                            )->0 <= post.priority_of(j) by {
                            assert(0 <= j < n);
                            assert(j != id);
                            assert(pre.is_queued(j));
                            assert(post.priority_of(j) == pre.priority_of(j));
                            if s < t - 1 {
                                assert(pre.is_queued(j));
                            } else {
                                assert(pre.priority_of(id as int) <= pre.priority_of(j));
                            }
                        }
                    },
                }
            },
            Some(u) => {
                if pre.is_queued(u.0 as int) {
                    assert forall|s: int, j: int|
                        #![trigger popped_key(qs, ops, rs, s), post.is_queued(j)]
                        0 <= s < t && popped_key(qs, ops, rs, s) is Some && post.is_queued(j) implies popped_key(
                            qs,
                            ops,
                            rs,
                            s,
                        )->0 <= post.priority_of(j) by {
                        assert(0 <= j < n);
                        assert(pre.is_queued(j));
                        assert(s < t - 1);
                        if j == u.0 {
                            assert((ops[t - 1]->0).1 >= popped_key(qs, ops, rs, s)->0);
                        } else {
                            assert(post.priority_of(j) == pre.priority_of(j));
                        }
                    }
                }
            },
        }
    }
}

/// Keys leave in non-decreasing order along any run of pops and key updates
/// that starts from a heap-ordered queue, as long as no update sets a key
/// below one already popped: every key popped is no smaller than any key
/// popped before it.
pub proof fn lemma_popped_keys_sorted(
    qs: Seq<PriorityQueue>,
    ops: Seq<Option<(usize, u64)>>,
    rs: Seq<Option<usize>>,
)
    requires
        op_run(qs, ops, rs),
        qs[0].is_heap(),
        updates_not_below_popped(qs, ops, rs),
    ensures
        forall|s: int, t: int|
            #![trigger popped_key(qs, ops, rs, s), popped_key(qs, ops, rs, t)]
            0 <= s < t < ops.len() && popped_key(qs, ops, rs, s) is Some && popped_key(qs, ops, rs, t) is Some
                ==> popped_key(qs, ops, rs, s)->0 <= popped_key(qs, ops, rs, t)->0,
{
    assert forall|s: int, t: int|
        #![trigger popped_key(qs, ops, rs, s), popped_key(qs, ops, rs, t)]
        0 <= s < t < ops.len() && popped_key(qs, ops, rs, s) is Some && popped_key(qs, ops, rs, t)
            is Some implies popped_key(qs, ops, rs, s)->0 <= popped_key(qs, ops, rs, t)->0 by {
        lemma_floor_inv(qs, ops, rs, t);
        assert(run_step(&qs[t], &qs[t + 1], ops[t], rs[t]));
        let id = rs[t]->0;
        assert(qs[t].is_queued(id as int));
    }
}

impl PriorityQueue {
    /// Number of entries ever pushed since the queue was made or cleared.
    pub closed spec fn num_entries(&self) -> nat {
        self.entries@.len()
    }

    /// The link carried by entry `id`.
    pub closed spec fn link_of(&self, id: int) -> usize {
        self.entries@[id].link
    }

    /// The current key of entry `id`.
    pub closed spec fn priority_of(&self, id: int) -> u64 {
        self.entries@[id].priority
    }

    /// Entry `id` exists and has not been popped yet.
    pub closed spec fn is_queued(&self, id: int) -> bool {
        &&& 0 <= id < self.entries@.len()
        &&& self.entries@[id].index is Some
    }

    /// The queued entry ids, in heap order.
    pub closed spec fn pending(&self) -> Seq<usize> {
        self.heap@
    }

    /// The key of every entry, by id.
    pub closed spec fn keys_by_id(&self) -> Seq<u64> {
        Seq::new(self.entries@.len(), |j: int| self.entries@[j].priority)
    }

    /// Two queues with the same items keep the same links, keys and queued
    /// entries.
    proof fn lemma_same_items(&self, other: &Self)
        requires
            self.same_items(other),
        ensures
            same_entries(other, self),
            same_queued_except(other, self, other.num_entries() as int, -1),
            self.keys_by_id() == other.keys_by_id(),
            self.pending().len() == other.pending().len(),
    {
        let n = other.num_entries() as int;
        assert forall|j: int| 0 <= j < n implies #[trigger] self.link_of(j) == other.link_of(j) by {
            let _ = self.entries@[j];
        }
        assert forall|j: int| 0 <= j < n && j != -1 implies #[trigger] self.priority_of(j) == other.priority_of(j) by {
            let _ = self.entries@[j];
        }
        assert forall|j: int| 0 <= j < n && j != -1 implies #[trigger] self.is_queued(j) == other.is_queued(j) by {
            let _ = self.entries@[j];
        }
        assert(self.keys_by_id() =~= other.keys_by_id()) by {
            assert forall|j: int| 0 <= j < n implies self.keys_by_id()[j] == other.keys_by_id()[j] by {
                let _ = self.entries@[j];
            }
        }
    }

    spec fn key_at(&self, p: int) -> u64 {
        self.entries@[self.heap@[p] as int].priority
    }

    /// Internal consistency: the heap holds each queued id exactly once and
    /// every queued entry knows its slot.
    pub closed spec fn wf(&self) -> bool {
        &&& self.heap@.len() <= self.entries@.len()
        &&& self.entries@.len() < usize::MAX / 2
        &&& forall|p: int|
            0 <= p < self.heap@.len() ==> {
                &&& (#[trigger] self.heap@[p]) < self.entries@.len()
                &&& self.entries@[self.heap@[p] as int].index == Some(p as usize)
            }
        &&& forall|id: int|
            0 <= id < self.entries@.len() ==> match (#[trigger] self.entries@[id]).index {
                Some(p) => p < self.heap@.len() && self.heap@[p as int] == id,
                None => true,
            }
    }

    /// The keys of the queued entries, in heap order.
    spec fn keys(&self) -> Seq<u64> {
        Seq::new(self.heap@.len(), |p: int| self.key_at(p))
    }

    /// Heap order: no queued entry has a smaller key than the one above it.
    pub closed spec fn is_heap(&self) -> bool {
        ordered_from(self.keys(), 0)
    }

    /// Same entries (links, keys, queued or not) as `other`, and as many
    /// of them queued.
    spec fn same_items(&self, other: &Self) -> bool {
        &&& self.entries@.len() == other.entries@.len()
        &&& self.heap@.len() == other.heap@.len()
        &&& forall|id: int|
            0 <= id < self.entries@.len() ==> {
                &&& (#[trigger] self.entries@[id]).link == other.entries@[id].link
                &&& self.entries@[id].priority == other.entries@[id].priority
                &&& (self.entries@[id].index is Some) == (other.entries@[id].index is Some)
            }
    }

    /// Under `wf`, the pending ids are exactly the queued entries, each
    /// once.
    pub proof fn lemma_pending(&self)
        requires
            self.wf(),
        ensures
            self.pending().no_duplicates(),
            self.pending().len() <= self.num_entries(),
            forall|id: usize| #[trigger] self.pending().contains(id) ==> id < self.num_entries(),
            forall|id: usize| #[trigger] self.is_queued(id as int) <==> self.pending().contains(id),
    {
        assert forall|a: int, b: int|
            0 <= a < self.heap@.len() && 0 <= b < self.heap@.len() && a != b implies self.heap@[a]
            != self.heap@[b] by {
            let _ = self.heap@[a];
            let _ = self.heap@[b];
        }
        assert forall|id: usize| #[trigger] self.is_queued(id as int) implies self.pending().contains(
            id,
        ) by {
            let p = self.entries@[id as int].index.unwrap();
            assert(self.heap@[p as int] == id);
        }
        assert forall|id: usize| self.pending().contains(id) implies #[trigger] self.is_queued(
            id as int,
        ) by {
            let p = choose|p: int| 0 <= p < self.heap@.len() && self.heap@[p] == id;
            let _ = self.heap@[p];
        }
    }

    pub fn with_capacity(capacity: usize) -> (q: PriorityQueue)
        ensures
            q.wf(),
            q.is_heap(),
            q.num_entries() == 0,
            q.pending().len() == 0,
    {
        PriorityQueue { entries: Vec::with_capacity(capacity), heap: Vec::with_capacity(capacity) }
    }

    /// Appends a new entry without restoring the heap order; `init`
    /// establishes it over all pushed entries.
    pub fn push(&mut self, link: usize, priority: u64) -> (id: usize)
        requires
            old(self).wf(),
            old(self).num_entries() + 1 < usize::MAX / 2,
        ensures
            final(self).wf(),
            id == old(self).num_entries(),
            final(self).num_entries() == old(self).num_entries() + 1,
            final(self).link_of(id as int) == link,
            final(self).priority_of(id as int) == priority,
            final(self).is_queued(id as int),
            final(self).pending() == old(self).pending().push(id),
            same_links(old(self), final(self), old(self).num_entries() as int),
            same_keys_except(old(self), final(self), old(self).num_entries() as int, -1),
            same_queued_except(old(self), final(self), old(self).num_entries() as int, -1),
    {
        let id = self.entries.len();
        let slot = self.heap.len();
        self.entries.push(PqEntry { link, priority, index: Some(slot) });
        self.heap.push(id);
        proof {
            assert forall|p: int| 0 <= p < self.heap@.len() implies {
                &&& (#[trigger] self.heap@[p]) < self.entries@.len()
                &&& self.entries@[self.heap@[p] as int].index == Some(p as usize)
            } by {
                if p < slot {
                    let _ = old(self).heap@[p];
                }
            }
            assert forall|j: int| 0 <= j < self.entries@.len() implies match (
            #[trigger] self.entries@[j]).index {
                Some(p) => p < self.heap@.len() && self.heap@[p as int] == j,
                None => true,
            } by {
                if j < id {
                    let _ = old(self).entries@[j];
                }
            }
            let n = old(self).num_entries() as int;
            assert forall|j: int| 0 <= j < n implies {
                &&& self.link_of(j) == old(self).link_of(j)
                &&& self.priority_of(j) == old(self).priority_of(j)
                &&& self.is_queued(j) == old(self).is_queued(j)
            } by {
                let _ = old(self).entries@[j];
            }
            assert(same_links(old(self), self, n));
            assert(same_keys_except(old(self), self, n, -1));
            assert(same_queued_except(old(self), self, n, -1));
        }
        id
    }

    pub fn len(&self) -> (n: usize)
        ensures
            n == self.pending().len(),
    {
        self.heap.len()
    }

    /// Empties the queue while keeping the backing capacity, so that a
    /// workspace can reuse it across destinations.
    pub fn clear(&mut self)
        ensures
            final(self).wf(),
            final(self).is_heap(),
            final(self).num_entries() == 0,
            final(self).pending().len() == 0,
    {
        self.entries.clear();
        self.heap.clear();
    }

    pub fn link(&self, id: usize) -> (l: usize)
        requires
            id < self.num_entries(),
        ensures
            l == self.link_of(id as int),
    {
        self.entries[id].link
    }

    pub fn priority(&self, id: usize) -> (p: u64)
        requires
            id < self.num_entries(),
        ensures
            p == self.priority_of(id as int),
    {
        self.entries[id].priority
    }

    /// The queued entry ids in heap order.
    pub fn pending_ids(&self) -> (ids: Vec<usize>)
        requires
            self.wf(),
        ensures
            ids@ == self.pending(),
            forall|i: int| 0 <= i < ids@.len() ==> #[trigger] ids@[i] < self.num_entries(),
    {
        proof {
            self.lemma_pending();
            assert forall|i: int| 0 <= i < self.heap@.len() implies #[trigger] self.heap@[i]
                < self.num_entries() by {
                assert(self.pending().contains(self.heap@[i]));
            }
        }
        self.heap.clone()
    }

    fn less(&self, i: usize, j: usize) -> (r: bool)
        requires
            self.wf(),
            i < self.heap@.len(),
            j < self.heap@.len(),
        ensures
            r == (self.keys()[i as int] <= self.keys()[j as int]),
            r == (self.keys_by_id()[self.heap@[i as int] as int] <= self.keys_by_id()[self.heap@[j as int] as int]),
    {
        self.entries[self.heap[i]].priority <= self.entries[self.heap[j]].priority
    }

    fn swap(&mut self, i: usize, j: usize)
        requires
            old(self).wf(),
            i < old(self).heap@.len(),
            j < old(self).heap@.len(),
        ensures
            final(self).wf(),
            final(self).same_items(old(self)),
            final(self).heap@ == swap_slots(old(self).heap@, i as int, j as int),
            final(self).keys() == swapped(old(self).keys(), i as int, j as int),
    {
        let a = self.heap[i];
        let b = self.heap[j];
        self.heap[i] = b;
        self.heap[j] = a;
        self.entries[b].index = Some(i);
        self.entries[a].index = Some(j);
        proof {
            let oh = old(self).heap@;
            let oe = old(self).entries@;
            assert(a != b ==> i != j);
            assert forall|p: int| 0 <= p < self.heap@.len() implies {
                &&& (#[trigger] self.heap@[p]) < self.entries@.len()
                &&& self.entries@[self.heap@[p] as int].index == Some(p as usize)
            } by {
                let _ = oh[p];
                if p != i && p != j {
                    let x = oh[p];
                    if x == a {
                        let _ = oh[i as int];
                    }
                    if x == b {
                        let _ = oh[j as int];
                    }
                }
            }
            assert forall|id: int| 0 <= id < self.entries@.len() implies match (
            #[trigger] self.entries@[id]).index {
                Some(p) => p < self.heap@.len() && self.heap@[p as int] == id,
                None => true,
            } by {
                let _ = oe[id];
                let _ = oh[i as int];
                let _ = oh[j as int];
            }
            assert forall|id: int| 0 <= id < self.entries@.len() implies {
                &&& (#[trigger] self.entries@[id]).link == old(self).entries@[id].link
                &&& self.entries@[id].priority == old(self).entries@[id].priority
                &&& (self.entries@[id].index is Some) == (old(self).entries@[id].index is Some)
            } by {
                let _ = oe[id];
                let _ = oh[i as int];
                let _ = oh[j as int];
            }
        }
    }

    /// Pops an entry of the smallest key and returns its id.
    #[verifier::spinoff_prover]
    pub fn pop(&mut self) -> (r: Option<usize>)
        requires
            old(self).wf(),
        ensures
            final(self).wf(),
            pop_effect(old(self), final(self), r),
    {
        let n = self.heap.len();
        if n == 0 {
            return None;
        }
        proof {
            self.lemma_pending();
        }
        let ghost k0 = self.keys();
        let first = self.heap[0];
        let last = self.heap[n - 1];
        self.heap[0] = last;
        self.entries[last].index = Some(0);
        self.heap.truncate(n - 1);
        self.entries[first].index = None;
        proof {
            let oh = old(self).heap@;
            let oe = old(self).entries@;
            assert(oh.no_duplicates());
            assert forall|p: int| 0 <= p < self.heap@.len() implies {
                &&& (#[trigger] self.heap@[p]) < self.entries@.len()
                &&& self.entries@[self.heap@[p] as int].index == Some(p as usize)
            } by {
                let _ = oh[p];
                if p > 0 {
                    assert(oh[p] != oh[0]);
                    assert(oh[p] != oh[n - 1]);
                }
            }
            assert forall|id: int| 0 <= id < self.entries@.len() implies match (
            #[trigger] self.entries@[id]).index {
                Some(p) => p < self.heap@.len() && self.heap@[p as int] == id,
                None => true,
            } by {
                let _ = oe[id];
            }
            if old(self).is_heap() {
                let k = self.keys();
                assert forall|c: int| 1 <= c < k.len() && parent(c) >= 0 && parent(c) != 0 implies k[parent(c)]
                    <= #[trigger] k[c] by {
                    assert(k0[parent(c)] <= k0[c]);
                }
                assert(down_ok(k, 0, 0));
            }
        }
        let ghost mid = *self;
        proof {
            assert(mid.heap@ =~= old(self).heap@.update(0, old(self).heap@.last()).drop_last());
            assert(mid.keys_by_id() =~= old(self).keys_by_id());
        }
        self.sift_down(0, Ghost(0));
        proof {
            self.lemma_same_items(&mid);
            let n = old(self).num_entries() as int;
            assert forall|j: int| 0 <= j < n implies {
                &&& #[trigger] mid.link_of(j) == old(self).link_of(j)
                &&& mid.priority_of(j) == old(self).priority_of(j)
                &&& j != first ==> mid.is_queued(j) == old(self).is_queued(j)
            } by {
                let _ = old(self).entries@[j];
            }
            assert(same_links(old(self), self, n));
            assert(same_keys_except(old(self), self, n, -1));
            assert(same_queued_except(old(self), self, n, first as int));
            if old(self).is_heap() {
                assert forall|j: int| #[trigger] old(self).is_queued(j) implies old(self).priority_of(
                    first as int,
                ) <= old(self).priority_of(j) by {
                    let p = old(self).entries@[j].index.unwrap();
                    lemma_root_min(k0, p as int);
                }
            }
        }
        Some(first)
    }

    /// Establishes the heap order over all pushed entries.
    #[verifier::spinoff_prover]
    pub fn init(&mut self)
        requires
            old(self).wf(),
        ensures
            final(self).wf(),
            final(self).is_heap(),
            final(self).num_entries() == old(self).num_entries(),
            final(self).pending().len() == old(self).pending().len(),
            same_links(old(self), final(self), old(self).num_entries() as int),
            same_keys_except(old(self), final(self), old(self).num_entries() as int, -1),
            same_queued_except(old(self), final(self), old(self).num_entries() as int, -1),
            final(self).pending() == heapified(
                old(self).pending(),
                old(self).keys_by_id(),
                (old(self).pending().len() / 2) as int,
            ),
    {
        let n = self.heap.len();
        let ghost kid = self.keys_by_id();
        let ghost target = heapified(self.heap@, kid, (n / 2) as int);
        let mut i = n / 2;
        while i > 0
            invariant
                self.wf(),
                self.same_items(old(self)),
                self.keys_by_id() == kid,
                n == self.heap@.len(),
                i <= n,
                heapified(self.heap@, kid, i as int) == target,
                ordered_from(self.keys(), i as int),
            decreases i,
        {
            i -= 1;
            proof {
                let k = self.keys();
                assert(down_ok(k, i as int, i as int));
            }
            let ghost pre = *self;
            self.sift_down(i, Ghost(i as int));
            proof {
                self.lemma_same_items(&pre);
            }
        }
        proof {
            self.lemma_same_items(old(self));
        }
    }

    /// Changes the key of entry `id`; an entry that was already popped is
    /// left as it is.
    #[verifier::spinoff_prover]
    pub fn update(&mut self, id: usize, priority: u64)
        requires
            old(self).wf(),
            id < old(self).num_entries(),
        ensures
            final(self).wf(),
            update_effect(old(self), final(self), id, priority),
    {
        let index = match self.entries[id].index {
            Some(p) => p,
            None => {
                return ;
            },
        };
        let ghost k0 = self.keys();
        let old_priority = self.entries[id].priority;
        self.entries[id].priority = priority;
        proof {
            let oe = old(self).entries@;
            assert forall|p: int| 0 <= p < self.heap@.len() implies {
                &&& (#[trigger] self.heap@[p]) < self.entries@.len()
                &&& self.entries@[self.heap@[p] as int].index == Some(p as usize)
            } by {
                let _ = old(self).heap@[p];
            }
            assert forall|j: int| 0 <= j < self.entries@.len() implies match (
            #[trigger] self.entries@[j]).index {
                Some(p) => p < self.heap@.len() && self.heap@[p as int] == j,
                None => true,
            } by {
                let _ = oe[j];
            }
            assert(self.keys() =~= k0.update(index as int, priority));
            if old(self).is_heap() {
                if priority <= old_priority {
                    lemma_decrease(k0, index as int, priority);
                } else {
                    lemma_increase(k0, index as int, priority);
                }
            }
        }
        let ghost mid = *self;
        proof {
            assert(mid.keys_by_id() =~= old(self).keys_by_id().update(id as int, priority));
            old(self).lemma_pending();
            assert(old(self).heap@[index as int] == id);
            assert(slot_of(old(self).heap@, id) == index);
        }
        if priority <= old_priority {
            self.sift_up(index);
        } else {
            self.sift_down(index, Ghost(0));
        }
        proof {
            self.lemma_same_items(&mid);
            let n = old(self).num_entries() as int;
            assert forall|j: int| 0 <= j < n implies {
                &&& #[trigger] mid.link_of(j) == old(self).link_of(j)
                &&& j != id ==> mid.priority_of(j) == old(self).priority_of(j)
                &&& mid.is_queued(j) == old(self).is_queued(j)
            } by {
                let _ = old(self).entries@[j];
            }
            assert(same_links(old(self), self, n));
            assert(same_keys_except(old(self), self, n, id as int));
            assert(same_queued_except(old(self), self, n, -1));
        }
    }

    /// Moves the key at slot `i` up until its parent is smaller.
    fn sift_up(&mut self, i: usize)
        requires
            old(self).wf(),
            i < old(self).heap@.len(),
        ensures
            final(self).wf(),
            final(self).same_items(old(self)),
            final(self).heap@ == sifted_up(old(self).heap@, old(self).keys_by_id(), i as int),
            up_ok(old(self).keys(), i as int) ==> final(self).is_heap(),
    {
        let ghost start_ok = up_ok(self.keys(), i as int);
        let ghost kid = self.keys_by_id();
        let ghost target = sifted_up(self.heap@, kid, i as int);
        let mut i = i;
        while i > 0
            invariant
                self.wf(),
                self.same_items(old(self)),
                self.keys_by_id() == kid,
                i < self.heap@.len(),
                sifted_up(self.heap@, kid, i as int) == target,
                start_ok ==> up_ok(self.keys(), i as int),
            ensures
                self.wf(),
                self.same_items(old(self)),
                self.heap@ == target,
                start_ok ==> self.is_heap(),
            decreases i,
        {
            let up = (i - 1) / 2;
            let ghost h = self.heap@;
            if self.less(i, up) {
                proof {
                    if start_ok {
                        lemma_up_step(self.keys(), i as int);
                    }
                }
                let ghost pre = *self;
                self.swap(i, up);
                proof {
                    self.lemma_same_items(&pre);
                    assert(sifted_up(h, kid, i as int) == sifted_up(swap_slots(h, i as int, up as int), kid, up as int));
                }
                i = up;
            } else {
                proof {
                    if start_ok {
                        lemma_up_stop(self.keys(), i as int);
                    }
                }
                break;
            }
        }
        proof {
            if start_ok && i == 0 {
                lemma_up_stop(self.keys(), 0);
            }
        }
    }

    /// Moves the key at slot `i` down until its children are larger.
    fn sift_down(&mut self, i: usize, Ghost(lo): Ghost<int>)
        requires
            old(self).wf(),
            i <= old(self).heap@.len(),
        ensures
            final(self).wf(),
            final(self).same_items(old(self)),
            final(self).heap@ == sifted_down(old(self).heap@, old(self).keys_by_id(), i as int),
            down_ok(old(self).keys(), lo, i as int) ==> ordered_from(final(self).keys(), lo),
    {
        let ghost start_ok = down_ok(self.keys(), lo, i as int);
        let ghost kid = self.keys_by_id();
        let ghost target = sifted_down(self.heap@, kid, i as int);
        let n = self.heap.len();
        let mut i = i;
        loop
            invariant
                self.wf(),
                self.same_items(old(self)),
                self.keys_by_id() == kid,
                n == self.heap@.len(),
                i <= n,
                sifted_down(self.heap@, kid, i as int) == target,
                start_ok ==> down_ok(self.keys(), lo, i as int),
            ensures
                self.wf(),
                self.same_items(old(self)),
                self.heap@ == target,
                start_ok ==> ordered_from(self.keys(), lo),
            decreases n - i,
        {
            let mut smallest = i;
            let left = 2 * i + 1;
            let right = 2 * i + 2;

            if left < n && self.less(left, smallest) {
                smallest = left;
            }
            if right < n && self.less(right, smallest) {
                smallest = right;
            }
            let ghost h = self.heap@;
            proof {
                assert(down_target(h, kid, i as int) == smallest);
            }
            if smallest != i {
                proof {
                    if start_ok {
                        let k = self.keys();
                        assert(k[smallest as int] <= k[i as int]);
                        assert forall|c: int| 1 <= c < n && parent(c) == i implies k[smallest as int]
                            <= #[trigger] k[c] by {
                            assert(c == left || c == right);
                        }
                        lemma_down_step(k, lo, i as int, smallest as int);
                    }
                }
                let ghost pre = *self;
                self.swap(i, smallest);
                proof {
                    self.lemma_same_items(&pre);
                    assert(sifted_down(h, kid, i as int) == sifted_down(swap_slots(h, i as int, smallest as int), kid, smallest as int));
                }
                i = smallest;
            } else {
                proof {
                    if start_ok {
                        let k = self.keys();
                        assert forall|c: int| 1 <= c < n && parent(c) == i implies k[i as int]
                            <= #[trigger] k[c] by {
                            assert(c == left || c == right);
                        }
                        lemma_down_stop(k, lo, i as int);
                    }
                }
                break;
            }
        }
    }
}

} // verus!
