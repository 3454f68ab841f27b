use std::sync::atomic::AtomicBool;
use std::sync::atomic::Ordering;
use vstd::prelude::*;

verus! {

/// Reads the trace switch. The flag may be flipped by another thread at any
/// moment, so nothing is promised about the value that is seen.
pub fn verbose(flag: &AtomicBool) -> (on: bool) {
    flag.load(Ordering::Relaxed)
}

/// The live `(node, link)` pairs among the first `m` slots, in slot order.
spec fn live(slots: Seq<Option<usize>>, owner: Seq<usize>, m: int) -> Seq<(usize, usize)>
    decreases m,
{
    if m <= 0 {
        Seq::empty()
    } else {
        let r = live(slots, owner, m - 1);
        match slots[m - 1] {
            Some(k) => r.push((owner[m - 1], k)),
            None => r,
        }
    }
}

/// `s` without the pairs whose node is `i`, order kept.
pub open spec fn without_node(s: Seq<(usize, usize)>, i: usize) -> Seq<(usize, usize)>
    decreases s.len(),
{
    if s.len() == 0 {
        s
    } else {
        let r = without_node(s.drop_last(), i);
        if s.last().0 == i {
            r
        } else {
            r.push(s.last())
        }
    }
}

/// The links of a sequence of `(node, link)` pairs.
pub open spec fn links_of(s: Seq<(usize, usize)>) -> Seq<usize> {
    s.map_values(|e: (usize, usize)| e.1)
}

/// The links of a sequence of pairs come in the order of the pairs: one
/// link per pair, and link `t` is the link of pair `t`.
pub proof fn lemma_links_of(s: Seq<(usize, usize)>)
    ensures
        links_of(s).len() == s.len(),
        forall|t: int| 0 <= t < s.len() ==> #[trigger] links_of(s)[t] == s[t].1,
{
}

/// The links in the basket of node `i`, in acceptance order.
pub open spec fn basket_of(s: Seq<(usize, usize)>, i: usize) -> Seq<usize>
    decreases s.len(),
{
    if s.len() == 0 {
        Seq::empty()
    } else {
        let r = basket_of(s.drop_last(), i);
        if s.last().0 == i {
            r.push(s.last().1)
        } else {
            r
        }
    }
}

/// Dropping the pairs of node `i` empties its basket and leaves every other
/// basket as it was.
pub proof fn lemma_without_node_baskets(s: Seq<(usize, usize)>, i: usize, j: usize)
    ensures
        basket_of(without_node(s, i), j) == if j == i {
            Seq::<usize>::empty()
        } else {
            basket_of(s, j)
        },
    decreases s.len(),
{
    if s.len() > 0 {
        lemma_without_node_baskets(s.drop_last(), i, j);
        let r = without_node(s.drop_last(), i);
        assert(r.push(s.last()).drop_last() =~= r);
    }
}

/// After a no-wait link `k` replaces the basket of node `i`, that basket is
/// exactly `[k]`, and the baskets of all other nodes are untouched.
pub proof fn lemma_replaced_basket(s: Seq<(usize, usize)>, i: usize, k: usize, j: usize)
    ensures
        basket_of(without_node(s, i).push((i, k)), i) == seq![k],
        j != i ==> basket_of(without_node(s, i).push((i, k)), j) == basket_of(s, j),
{
    let r = without_node(s, i);
    assert(r.push((i, k)).drop_last() =~= r);
    lemma_without_node_baskets(s, i, i);
    lemma_without_node_baskets(s, i, j);
    assert(Seq::<usize>::empty().push(k) =~= seq![k]);
}

/// Clearing the slots of node `i` drops exactly that node's pairs.
proof fn lemma_live_cleared(
    old_slots: Seq<Option<usize>>,
    new_slots: Seq<Option<usize>>,
    owner: Seq<usize>,
    i: usize,
    m: int,
)
    requires
        0 <= m <= old_slots.len(),
        new_slots.len() == old_slots.len(),
        owner.len() == old_slots.len(),
        forall|p: int|
            0 <= p < m ==> #[trigger] new_slots[p] == if owner[p] == i {
                None
            } else {
                old_slots[p]
            },
    ensures
        live(new_slots, owner, m) == without_node(live(old_slots, owner, m), i),
    decreases m,
{
    if m > 0 {
        lemma_live_cleared(old_slots, new_slots, owner, i, m - 1);
        let r = live(old_slots, owner, m - 1);
        assert(new_slots[m - 1] == if owner[m - 1] == i {
            None
        } else {
            old_slots[m - 1]
        });
        match old_slots[m - 1] {
            Some(k) => {
                assert(r.push((owner[m - 1], k)).drop_last() =~= r);
            },
            None => {},
        }
    }
}

/// Slots past `m` do not matter to the live pairs among the first `m`.
proof fn lemma_live_prefix(a: Seq<Option<usize>>, b: Seq<Option<usize>>, oa: Seq<usize>, ob: Seq<usize>, m: int)
    requires
        0 <= m <= a.len(),
        m <= b.len(),
        m <= oa.len(),
        m <= ob.len(),
        forall|p: int| 0 <= p < m ==> a[p] == b[p] && oa[p] == ob[p],
    ensures
        live(a, oa, m) == live(b, ob, m),
    decreases m,
{
    if m > 0 {
        lemma_live_prefix(a, b, oa, ob, m - 1);
    }
}

/// What became of a link offered to the attractive set.
pub enum Admission {
    /// Its tail node is already served by a no-wait link.
    NodeClosed,
    /// It does not strictly improve the label of its tail node.
    NotImproving,
    /// A no-wait link: it replaced the basket of its tail node.
    ReplacedBasket,
    /// A boarding link: it joined the basket of its tail node.
    JoinedBasket,
}

/// The attractive set of an optimal strategy under construction.
///
/// Links enter in acceptance order. Each accepted link belongs to the basket
/// of its tail node; a no-wait link replaces the whole basket of its node,
/// and the replaced links drop out of the set.
pub struct AttractiveSet {
    /// Accepted links in acceptance order; replaced ones become `None`.
    slots: Vec<Option<usize>>,
    /// The tail node of each slot.
    owner: Ghost<Seq<usize>>,
    /// For each node, the slots that hold its basket.
    by_node: Vec<Vec<usize>>,
}

impl AttractiveSet {
    /// Number of nodes the set was made for.
    pub closed spec fn num_nodes(&self) -> nat {
        self.by_node@.len()
    }

    /// The `(node, link)` pairs in the set, in acceptance order.
    pub closed spec fn accepted(&self) -> Seq<(usize, usize)> {
        live(self.slots@, self.owner@, self.slots@.len() as int)
    }

    /// Every live slot is listed under its node, and every listed slot is
    /// live and belongs to that node.
    pub closed spec fn wf(&self) -> bool {
        &&& self.owner@.len() == self.slots@.len()
        &&& forall|p: int|
            0 <= p < self.slots@.len() && (#[trigger] self.slots@[p]) is Some ==> {
                &&& self.owner@[p] < self.by_node@.len()
                &&& self.by_node@[self.owner@[p] as int]@.contains(p as usize)
            }
        &&& forall|i: int, t: int|
            0 <= i < self.by_node@.len() && 0 <= t < self.by_node@[i]@.len() ==> {
                let p = #[trigger] self.by_node@[i]@[t];
                &&& p < self.slots@.len()
                &&& self.slots@[p as int] is Some
                &&& self.owner@[p as int] == i
            }
    }

    /// An empty set over `n` nodes.
    pub fn new(n: usize, capacity: usize) -> (s: AttractiveSet)
        ensures
            s.wf(),
            s.num_nodes() == n,
            s.accepted() == Seq::<(usize, usize)>::empty(),
    {
        let mut by_node: Vec<Vec<usize>> = Vec::new();
        let mut j: usize = 0;
        while j < n
            invariant
                j <= n,
                by_node@.len() == j,
                forall|i: int| 0 <= i < j ==> (#[trigger] by_node@[i])@.len() == 0,
            decreases n - j,
        {
            by_node.push(Vec::new());
            j += 1;
        }
        AttractiveSet { slots: Vec::with_capacity(capacity), owner: Ghost(Seq::empty()), by_node }
    }

    /// Empties the set, keeping its node count and its buffers.
    pub fn reset(&mut self)
        requires
            old(self).wf(),
        ensures
            final(self).wf(),
            final(self).num_nodes() == old(self).num_nodes(),
            final(self).accepted() == Seq::<(usize, usize)>::empty(),
    {
        let n = self.by_node.len();
        let mut j: usize = 0;
        while j < n
            invariant
                j <= n,
                self.by_node@.len() == n,
                forall|i: int| 0 <= i < j ==> (#[trigger] self.by_node@[i])@.len() == 0,
            decreases n - j,
        {
            self.by_node[j].clear();
            j += 1;
        }
        self.slots.clear();
        self.owner = Ghost(Seq::empty());
    }

    /// Link `k` joins the basket of node `i`.
    pub fn add_link(&mut self, i: usize, k: usize)
        requires
            old(self).wf(),
            i < old(self).num_nodes(),
        ensures
            final(self).wf(),
            final(self).num_nodes() == old(self).num_nodes(),
            final(self).accepted() == old(self).accepted().push((i, k)),
    {
        let pos = self.slots.len();
        self.slots.push(Some(k));
        self.owner = Ghost(self.owner@.push(i));
        self.by_node[i].push(pos);
        proof {
            self.lemma_wf_after_push(old(self), i, pos);
            lemma_live_prefix(self.slots@, old(self).slots@, self.owner@, old(self).owner@, pos as int);
        }
    }

    /// No-wait link `k` replaces the whole basket of node `i`: the links
    /// that were in it leave the set, and `k` becomes its only link.
    #[verifier::spinoff_prover]
    pub fn replace_basket(&mut self, i: usize, k: usize)
        requires
            old(self).wf(),
            i < old(self).num_nodes(),
        ensures
            final(self).wf(),
            final(self).num_nodes() == old(self).num_nodes(),
            final(self).accepted() == without_node(old(self).accepted(), i).push((i, k)),
    {
        let cnt = self.by_node[i].len();
        let mut t: usize = 0;
        while t < cnt
            invariant
                old(self).wf(),
                i < self.by_node@.len(),
                t <= cnt,
                cnt == self.by_node@[i as int]@.len(),
                self.by_node@ == old(self).by_node@,
                self.owner@ == old(self).owner@,
                self.slots@.len() == old(self).slots@.len(),
                forall|q: usize|
                    q < self.slots@.len() ==> #[trigger] self.slots@[q as int] == if self.by_node@[i as int]@.take(t as int).contains(q) {
                        None
                    } else {
                        old(self).slots@[q as int]
                    },
            decreases cnt - t,
        {
            let p = self.by_node[i][t];
            let ghost before = self.slots@;
            self.slots[p] = None;
            proof {
                let bi = self.by_node@[i as int]@;
                assert(bi.take(t + 1) =~= bi.take(t as int).push(p));
                assert forall|q: usize| q < self.slots@.len() implies #[trigger] self.slots@[q as int] == if bi.take(t + 1).contains(q) {
                    None
                } else {
                    old(self).slots@[q as int]
                } by {
                    if q == p {
                        assert(bi.take(t + 1)[t as int] == p);
                    } else {
                        assert(self.slots@[q as int] == before[q as int]);
                        if bi.take(t + 1).contains(q) {
                            let tk = bi.take(t + 1);
                            let w = choose|w: int| 0 <= w < tk.len() && tk[w] == q;
                            assert(bi.take(t as int)[w] == q);
                        }
                        if bi.take(t as int).contains(q) {
                            let tk = bi.take(t as int);
                            let w = choose|w: int| 0 <= w < tk.len() && tk[w] == q;
                            assert(bi.take(t + 1)[w] == q);
                        }
                    }
                }
            }
            t += 1;
        }
        proof {
            let bi = self.by_node@[i as int]@;
            assert(bi.take(cnt as int) =~= bi);
            assert(self.slots@.len() == self.slots.len());
            assert forall|p: int| 0 <= p < self.slots@.len() implies #[trigger] self.slots@[p] == if self.owner@[p] == i {
                None
            } else {
                old(self).slots@[p]
            } by {
                let q = p as usize;
                assert(self.slots@[q as int] == self.slots@[p]);
                if old(self).slots@[p] is Some && self.owner@[p] == i {
                    assert(bi.contains(q));
                }
                if bi.contains(q) {
                    let t = choose|t: int| 0 <= t < bi.len() && bi[t] == q;
                    let _ = old(self).by_node@[i as int]@[t];
                }
            }
            lemma_live_cleared(old(self).slots@, self.slots@, self.owner@, i, self.slots@.len() as int);
        }
        self.by_node[i].clear();
        let ghost cleared = *self;
        proof {
            assert forall|p: int|
                0 <= p < self.slots@.len() && (#[trigger] self.slots@[p]) is Some implies {
                &&& self.owner@[p] < self.by_node@.len()
                &&& self.by_node@[self.owner@[p] as int]@.contains(p as usize)
            } by {
                let o = old(self).owner@[p];
                let _ = old(self).slots@[p];
                assert(o != i);
            }
            assert forall|j: int, t: int|
                0 <= j < self.by_node@.len() && 0 <= t < self.by_node@[j]@.len() implies {
                let p = #[trigger] self.by_node@[j]@[t];
                &&& p < self.slots@.len()
                &&& self.slots@[p as int] is Some
                &&& self.owner@[p as int] == j
            } by {
                let p = old(self).by_node@[j]@[t];
                assert(old(self).owner@[p as int] == j);
            }
        }
        let pos = self.slots.len();
        self.slots.push(Some(k));
        self.owner = Ghost(self.owner@.push(i));
        self.by_node[i].push(pos);
        proof {
            self.lemma_wf_after_push(&cleared, i, pos);
            lemma_live_prefix(self.slots@, cleared.slots@, self.owner@, cleared.owner@, pos as int);
        }
    }

    /// Writes the links of the set into `out`, in acceptance order.
    pub fn collect_links(&self, out: &mut Vec<usize>)
        requires
            self.wf(),
        ensures
            final(out)@ == links_of(self.accepted()),
            final(out)@.len() == self.accepted().len(),
            forall|t: int| 0 <= t < self.accepted().len() ==> #[trigger] final(out)@[t] == self.accepted()[t].1,
    {
        out.clear();
        let n = self.slots.len();
        let mut p: usize = 0;
        while p < n
            invariant
                p <= n,
                n == self.slots@.len(),
                out@ == links_of(live(self.slots@, self.owner@, p as int)),
            decreases n - p,
        {
            match self.slots[p] {
                Some(k) => {
                    out.push(k);
                },
                None => {},
            }
            proof {
                let r = live(self.slots@, self.owner@, p as int);
                match self.slots@[p as int] {
                    Some(k) => {
                        assert(links_of(r.push((self.owner@[p as int], k))) =~= links_of(r).push(k));
                    },
                    None => {},
                }
            }
            p += 1;
        }
        proof {
            lemma_links_of(self.accepted());
        }
    }

    /// Offers link `k`, whose tail node is `i`, to the set (step 1.3 of the
    /// optimal-strategy search). A node already served by a no-wait link
    /// takes no more links; a link that does not strictly improve the label
    /// of its tail node is rejected; otherwise a no-wait link replaces the
    /// basket of its node, and a boarding link joins it.
    pub fn offer(&mut self, i: usize, k: usize, node_closed: bool, improves: bool, no_wait: bool) -> (r:
        Admission)
        requires
            old(self).wf(),
            i < old(self).num_nodes(),
        ensures
            final(self).wf(),
            final(self).num_nodes() == old(self).num_nodes(),
            node_closed ==> r == Admission::NodeClosed && final(self).accepted() == old(self).accepted(),
            !node_closed && !improves ==> r == Admission::NotImproving && final(self).accepted()
                == old(self).accepted(),
            !node_closed && improves && no_wait ==> r == Admission::ReplacedBasket
                && final(self).accepted() == without_node(old(self).accepted(), i).push((i, k)),
            !node_closed && improves && !no_wait ==> r == Admission::JoinedBasket
                && final(self).accepted() == old(self).accepted().push((i, k)),
    {
        if node_closed {
            return Admission::NodeClosed;
        }
        if !improves {
            return Admission::NotImproving;
        }
        if no_wait {
            self.replace_basket(i, k);
            Admission::ReplacedBasket
        } else {
            self.add_link(i, k);
            Admission::JoinedBasket
        }
    }

    proof fn lemma_wf_after_push(&self, prev: &Self, i: usize, pos: usize)
        requires
            prev.wf(),
            i < prev.by_node@.len(),
            pos == prev.slots@.len(),
            self.slots@ == prev.slots@.push(self.slots@[pos as int]),
            self.slots@[pos as int] is Some,
            self.owner@ == prev.owner@.push(i),
            self.by_node@ == prev.by_node@.update(i as int, self.by_node@[i as int]),
            self.by_node@[i as int]@ == prev.by_node@[i as int]@.push(pos),
        ensures
            self.wf(),
    {
        assert forall|p: int|
            0 <= p < self.slots@.len() && (#[trigger] self.slots@[p]) is Some implies {
            &&& self.owner@[p] < self.by_node@.len()
            &&& self.by_node@[self.owner@[p] as int]@.contains(p as usize)
        } by {
            if p < pos {
                let _ = prev.slots@[p];
                let o = prev.owner@[p] as int;
                if o == i {
                    let t = choose|t: int| 0 <= t < prev.by_node@[o]@.len() && prev.by_node@[o]@[t] == p as usize;
                    assert(self.by_node@[o]@[t] == p as usize);
                }
            } else {
                assert(self.by_node@[i as int]@[prev.by_node@[i as int]@.len() as int] == pos);
            }
        }
        assert forall|j: int, t: int|
            0 <= j < self.by_node@.len() && 0 <= t < self.by_node@[j]@.len() implies {
            let p = #[trigger] self.by_node@[j]@[t];
            &&& p < self.slots@.len()
            &&& self.slots@[p as int] is Some
            &&& self.owner@[p as int] == j
        } by {
            if j == i && t == prev.by_node@[i as int]@.len() {
            } else {
                let _ = prev.by_node@[j]@[t];
            }
        }
    }
}

} // verus!
