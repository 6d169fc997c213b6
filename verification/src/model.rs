//! The mathematical model of the knowledge network: ghost structures for
//! artifacts, epochs and the network, their well-formedness, and the spec-level
//! transitions that the executable operations are proved against.

use vstd::prelude::*;
use crate::idvec::below;

verus! {

/// Lower bound for the minimum context size.
pub const CTX_MIN_SIZE: usize = 5;

/// Default upper bound on the network size.
pub const NET_MAX_SIZE: usize = 128;

pub open spec fn imax(a: int, b: int) -> int {
    if a > b {
        a
    } else {
        b
    }
}

/// A single knowledge artifact: its mechanism tag, its opaque payload, its
/// per-epoch access counts and its neighbours in the undirected graph.
#[verifier::ext_equal]
pub struct ItemModel {
    pub mech: Seq<char>,
    pub data: Seq<char>,
    /// `counts[e]` is the number of accesses recorded for epoch `e`; epochs
    /// beyond the end of the sequence have count zero.
    pub counts: Seq<int>,
    /// The ids of the adjacent artifacts.
    pub adj: Set<int>,
    /// This artifact's id: its index in the graph.
    pub id: int,
}

/// One entry of the epoch log: the artifact the context was centered on, the
/// context chosen at that moment, and the ids accessed during the epoch.
#[verifier::ext_equal]
pub struct EpochModel {
    pub center: int,
    pub ctx: Set<int>,
    pub accessed: Set<int>,
}

/// The whole network: the artifact graph, the epoch log and the two size
/// constants.
#[verifier::ext_equal]
pub struct NetworkModel {
    pub items: Seq<ItemModel>,
    pub epochs: Seq<EpochModel>,
    pub context_min_size: int,
    pub max_size: int,
}

/// Sum of the per-epoch counts over all epochs `e >= since`.
pub open spec fn recent_total(counts: Seq<int>, since: int) -> int
    decreases counts.len(),
{
    if counts.len() == 0 {
        0
    } else {
        recent_total(counts.drop_last(), since) + if counts.len() - 1 >= since {
            counts.last()
        } else {
            0
        }
    }
}

impl ItemModel {
    pub open spec fn wf(self, id: int, n: int) -> bool {
        &&& self.id == id
        &&& self.adj.finite()
        &&& forall|j: int| #[trigger] self.adj.contains(j) ==> 0 <= j < n
        &&& !self.adj.contains(id)
        &&& forall|e: int| 0 <= e < self.counts.len() ==> 0 <= #[trigger] self.counts[e]
        &&& recent_total(self.counts, 0) <= u64::MAX
    }

    /// The artifact with the same tag and payload, whose counts and neighbour
    /// set may only have grown.
    pub open spec fn extends(self, prior: ItemModel) -> bool {
        &&& self.id == prior.id
        &&& self.mech == prior.mech
        &&& self.data == prior.data
        &&& prior.adj.subset_of(self.adj)
        &&& prior.counts.len() <= self.counts.len()
        &&& forall|e: int|
            0 <= e < prior.counts.len() ==> #[trigger] self.counts[e] >= prior.counts[e]
    }
}

impl EpochModel {
    pub open spec fn wf(self, n: int, cms: int) -> bool {
        &&& 0 <= self.center < n
        &&& self.ctx.finite()
        &&& 0 < self.ctx.len() <= imax(cms, n)
        &&& forall|j: int| #[trigger] self.ctx.contains(j) ==> 0 <= j < n
        &&& self.accessed.finite()
        &&& forall|j: int| #[trigger] self.accessed.contains(j) ==> 0 <= j < n
    }

    /// The epoch with the same center and context whose accessed set may only
    /// have grown.
    pub open spec fn extends(self, prior: EpochModel) -> bool {
        &&& self.center == prior.center
        &&& self.ctx == prior.ctx
        &&& prior.accessed.subset_of(self.accessed)
    }
}

impl NetworkModel {
    pub open spec fn n(self) -> int {
        self.items.len() as int
    }

    pub open spec fn wf(self) -> bool {
        &&& 1 <= self.n()
        &&& 1 <= self.epochs.len()
        &&& self.context_min_size >= CTX_MIN_SIZE
        &&& forall|i: int| 0 <= i < self.n() ==> (#[trigger] self.items[i]).wf(i, self.n())
        &&& forall|i: int, j: int|
            0 <= i < self.n() && #[trigger] self.items[i].adj.contains(j)
                ==> self.items[j].adj.contains(i)
        &&& forall|i: int|
            0 <= i < self.n() && self.n() >= 2 ==> (#[trigger] self.items[i].adj).len() >= 1
        &&& forall|e: int|
            0 <= e < self.epochs.len() ==> (#[trigger] self.epochs[e]).wf(
                self.n(),
                self.context_min_size,
            )
    }

    /// Every state a mutation may lead to: artifacts and epochs are only
    /// appended, payloads and tags never change, neighbour sets, access counts
    /// and accessed sets only grow, and the two constants stay fixed.
    pub open spec fn extends(self, prior: NetworkModel) -> bool {
        &&& self.max_size == prior.max_size
        &&& self.context_min_size == prior.context_min_size
        &&& prior.items.len() <= self.items.len()
        &&& forall|i: int|
            0 <= i < prior.items.len() ==> (#[trigger] self.items[i]).extends(prior.items[i])
        &&& prior.epochs.len() <= self.epochs.len()
        &&& forall|e: int|
            0 <= e < prior.epochs.len() ==> (#[trigger] self.epochs[e]).extends(prior.epochs[e])
    }
}

pub proof fn lemma_extends_refl(m: NetworkModel)
    ensures
        m.extends(m),
{
}

pub proof fn lemma_extends_trans(c: NetworkModel, b: NetworkModel, a: NetworkModel)
    requires
        c.extends(b),
        b.extends(a),
    ensures
        c.extends(a),
{
    assert forall|i: int| 0 <= i < a.items.len() implies (#[trigger] c.items[i]).extends(
        a.items[i],
    ) by {
        assert(b.items[i].extends(a.items[i]));
        assert(c.items[i].extends(b.items[i]));
    }
    assert forall|e: int| 0 <= e < a.epochs.len() implies (#[trigger] c.epochs[e]).extends(
        a.epochs[e],
    ) by {
        assert(b.epochs[e].extends(a.epochs[e]));
        assert(c.epochs[e].extends(b.epochs[e]));
    }
}

/// `counts` extended with zeroes so that epoch `e` is within range.
pub open spec fn padded(counts: Seq<int>, e: int) -> Seq<int> {
    if e < counts.len() {
        counts
    } else {
        counts + Seq::new((e + 1 - counts.len()) as nat, |k: int| 0)
    }
}

/// `counts` with `count` added to the entry for epoch `e`.
pub open spec fn bumped(counts: Seq<int>, e: int, count: int) -> Seq<int> {
    let p = padded(counts, e);
    p.update(e, p[e] + count)
}

/// The network after `count` accesses to artifact `id` are recorded against
/// epoch `epoch`: the artifact's count for that epoch grows by `count` and the
/// id is added to the epoch's accessed set.
pub open spec fn spec_record_access(m: NetworkModel, epoch: int, id: int, count: int) -> NetworkModel {
    let item = m.items[id];
    let item2 = ItemModel { counts: bumped(item.counts, epoch, count), ..item };
    let ep = m.epochs[epoch];
    let ep2 = EpochModel { accessed: ep.accessed.insert(id), ..ep };
    NetworkModel { items: m.items.update(id, item2), epochs: m.epochs.update(epoch, ep2), ..m }
}

/// Recording a sequence of `(id, count)` pairs in order at one epoch, where
/// a count that would push its artifact's running total past the machine
/// bound is skipped.
pub open spec fn spec_record_counts(m: NetworkModel, epoch: int, counts: Seq<(usize, u64)>) -> NetworkModel
    decreases counts.len(),
{
    if counts.len() == 0 {
        m
    } else {
        let prev = spec_record_counts(m, epoch, counts.drop_last());
        let t = counts.last();
        if recent_total(prev.items[t.0 as int].counts, 0) + t.1 <= u64::MAX {
            spec_record_access(prev, epoch, t.0 as int, t.1 as int)
        } else {
            prev
        }
    }
}

/// `v` has at least as many recent accesses as every id in `others`.
pub open spec fn outranks_all(m: NetworkModel, v: int, others: Set<int>, since: int) -> bool {
    forall|b: int| #[trigger]
        others.contains(b) ==> recent_total(m.items[v].counts, since) >= recent_total(
            m.items[b].counts,
            since,
        )
}

/// What an orient step guarantees: exactly one epoch is appended, centered on
/// `center`, with an empty accessed set and a context drawn from the graph;
/// nothing else changes. When the graph is smaller than the minimum context
/// size the context is the whole graph; otherwise its size obeys the
/// scale-free target — at most `max(context_min_size, (n - 1) / 2)`, as every
/// target `floor(0.5 * n^gamma)` with `gamma < 1` lies strictly below
/// `n / 2` — and every member was admitted through the walk: it neighbours
/// the center or another member, and is reachable from the center.
pub open spec fn orient_post(m0: NetworkModel, m1: NetworkModel, since: int, center: int) -> bool {
    &&& m1.extends(m0)
    &&& m1.items == m0.items
    &&& m1.context_min_size == m0.context_min_size
    &&& m1.max_size == m0.max_size
    &&& m1.epochs.len() == m0.epochs.len() + 1
    &&& forall|e: int| 0 <= e < m0.epochs.len() ==> #[trigger] m1.epochs[e] == m0.epochs[e]
    &&& m1.epochs.last().center == center
    &&& m1.epochs.last().accessed == Set::<int>::empty()
    &&& m1.epochs.last().ctx.finite()
    &&& 0 < m1.epochs.last().ctx.len() <= imax(m0.context_min_size, m0.n())
    &&& forall|j: int| #[trigger] m1.epochs.last().ctx.contains(j) ==> 0 <= j < m0.n()
    &&& (m0.n() < m0.context_min_size ==> m1.epochs.last().ctx == crate::idvec::below(m0.n()))
    &&& (m0.n() >= m0.context_min_size ==> m1.epochs.last().ctx.len() <= imax(
        m0.context_min_size,
        (m0.n() - 1) / 2,
    ))
    &&& (m0.n() >= m0.context_min_size ==> m1.epochs.last().ctx.subset_of(
        neighborhood(m0.items, m1.epochs.last().ctx.insert(center)),
    ))
    &&& (m0.n() >= m0.context_min_size ==> forall|j: int| #[trigger]
        m1.epochs.last().ctx.contains(j) ==> reaches(m0.items, center, j, m0.n() as nat))
}

/// `j` is reachable from `from` in at most `steps` hops over neighbour sets.
pub open spec fn reaches(items: Seq<ItemModel>, from: int, j: int, steps: nat) -> bool
    decreases steps,
{
    if j == from {
        true
    } else if steps == 0 {
        false
    } else {
        exists|i: int|
            0 <= i < items.len() && reaches(items, from, i, (steps - 1) as nat) && (
            #[trigger] items[i].adj).contains(j)
    }
}

/// A hop budget never hurts: reachability within `s1` steps gives
/// reachability within any larger budget.
pub proof fn lemma_reaches_mono(items: Seq<ItemModel>, from: int, j: int, s1: nat, s2: nat)
    requires
        reaches(items, from, j, s1),
        s1 <= s2,
    ensures
        reaches(items, from, j, s2),
    decreases s1,
{
    if j != from {
        let i = choose|i: int|
            0 <= i < items.len() && reaches(items, from, i, (s1 - 1) as nat) && (
            #[trigger] items[i].adj).contains(j);
        lemma_reaches_mono(items, from, i, (s1 - 1) as nat, (s2 - 1) as nat);
    }
}

/// One more hop: a neighbour of a reachable artifact is reachable.
pub proof fn lemma_reaches_step(items: Seq<ItemModel>, from: int, i: int, j: int, s: nat)
    requires
        reaches(items, from, i, s),
        0 <= i < items.len(),
        items[i].adj.contains(j),
    ensures
        reaches(items, from, j, (s + 1) as nat),
{
}

/// Enlarging the sources of a neighbourhood only enlarges it.
pub proof fn lemma_neighborhood_mono(items: Seq<ItemModel>, s1: Set<int>, s2: Set<int>)
    requires
        s1.subset_of(s2),
    ensures
        neighborhood(items, s1).subset_of(neighborhood(items, s2)),
{
    assert forall|j: int| neighborhood(items, s1).contains(j) implies neighborhood(
        items,
        s2,
    ).contains(j) by {
        let i = choose|i: int| #[trigger]
            s1.contains(i) && 0 <= i < items.len() && items[i].adj.contains(j);
        assert(s2.contains(i) && 0 <= i < items.len() && items[i].adj.contains(j));
    }
}

/// What a successful growth step guarantees: one artifact is appended,
/// stamped with the given tag and payload, carrying at least one edge, all of
/// whose far ends are antecedent candidates; existing artifacts change only by
/// the mirrored edge; and exactly one epoch is appended by the implicit orient
/// on the new artifact.
pub open spec fn grow_post(
    m0: NetworkModel,
    m1: NetworkModel,
    tag: Seq<char>,
    data: Seq<char>,
    since: int,
) -> bool {
    let new_id = m0.n();
    let it = m1.items[new_id];
    &&& m1.extends(m0)
    &&& m1.items.len() == m0.n() + 1
    &&& m1.context_min_size == m0.context_min_size
    &&& m1.max_size == m0.max_size
    &&& it.id == new_id
    &&& it.mech == tag
    &&& it.data == data
    &&& it.counts == Seq::<int>::empty()
    &&& it.adj.finite()
    &&& it.adj.len() >= 1
    &&& forall|j: int| #[trigger] it.adj.contains(j) ==> 0 <= j < m0.n()
    &&& it.adj.subset_of(antecedent_set(m0.epochs, since))
    &&& forall|i: int| 0 <= i < m0.n() ==> (#[trigger] m1.items[i]).mech == m0.items[i].mech
    &&& forall|i: int| 0 <= i < m0.n() ==> (#[trigger] m1.items[i]).data == m0.items[i].data
    &&& forall|i: int| 0 <= i < m0.n() ==> (#[trigger] m1.items[i]).counts == m0.items[i].counts
    &&& forall|i: int|
        0 <= i < m0.n() ==> (#[trigger] m1.items[i]).adj == (if it.adj.contains(i) {
            m0.items[i].adj.insert(new_id)
        } else {
            m0.items[i].adj
        })
    &&& m1.epochs.len() == m0.epochs.len() + 1
    &&& forall|e: int| 0 <= e < m0.epochs.len() ==> #[trigger] m1.epochs[e] == m0.epochs[e]
    &&& m1.epochs.last().center == new_id
    &&& m1.epochs.last().accessed == Set::<int>::empty()
    &&& m1.epochs.last().ctx.finite()
    &&& 0 < m1.epochs.last().ctx.len() <= imax(m0.context_min_size, m0.n() + 1)
    &&& forall|j: int| #[trigger] m1.epochs.last().ctx.contains(j) ==> 0 <= j < m0.n() + 1
}

/// Recording accesses preserves well-formedness and only extends the state.
pub proof fn lemma_record_access_wf(m0: NetworkModel, ee: int, idd: int, count: int)
    requires
        m0.wf(),
        0 <= ee < m0.epochs.len(),
        0 <= idd < m0.n(),
        0 <= count,
        recent_total(m0.items[idd].counts, 0) + count <= u64::MAX,
    ensures
        spec_record_access(m0, ee, idd, count).wf(),
        spec_record_access(m0, ee, idd, count).extends(m0),
{
    let m2 = spec_record_access(m0, ee, idd, count);
    let oldit = m0.items[idd];
    let newit = m2.items[idd];
    let p = padded(oldit.counts, ee);
    assert(oldit.wf(idd, m0.n()));
    assert(forall|k: int| 0 <= k < oldit.counts.len() ==> 0 <= #[trigger] oldit.counts[k]);
    assert forall|k: int| 0 <= k < p.len() implies 0 <= #[trigger] p[k] by {
        if k < oldit.counts.len() {
            assert(p[k] == oldit.counts[k]);
        } else {
            assert(p[k] == 0);
        }
    }
    assert forall|k: int| 0 <= k < newit.counts.len() implies 0 <= #[trigger] newit.counts[k] by {
        if k != ee {
            assert(newit.counts[k] == p[k]);
        } else {
            assert(newit.counts[k] == p[ee] + count);
        }
    }
    lemma_recent_total_bumped(oldit.counts, ee, count, 0);
    assert(m2.n() == m0.n());
    assert forall|i: int| 0 <= i < m2.n() implies (#[trigger] m2.items[i]).wf(i, m2.n()) by {
        assert(m0.items[i].wf(i, m0.n()));
        if i != idd {
            assert(m2.items[i] == m0.items[i]);
        }
    }
    assert forall|i: int, j: int|
        0 <= i < m2.n() && #[trigger] m2.items[i].adj.contains(j) implies m2.items[j].adj.contains(
        i,
    ) by {
        assert(m2.items[i].adj == m0.items[i].adj);
        assert(m0.items[i].adj.contains(j));
        assert(0 <= j < m0.n());
        assert(m2.items[j].adj == m0.items[j].adj);
    }
    assert forall|i: int| 0 <= i < m2.n() && m2.n() >= 2 implies (#[trigger] m2.items[i].adj).len()
        >= 1 by {
        assert(m2.items[i].adj == m0.items[i].adj);
        assert(m0.items[i].adj.len() >= 1);
    }
    assert forall|e: int| 0 <= e < m2.epochs.len() implies (#[trigger] m2.epochs[e]).wf(
        m2.n(),
        m2.context_min_size,
    ) by {
        assert(m0.epochs[e].wf(m0.n(), m0.context_min_size));
        if e != ee {
            assert(m2.epochs[e] == m0.epochs[e]);
        } else {
            assert forall|j: int| #[trigger]
                m2.epochs[e].accessed.contains(j) implies 0 <= j < m2.n() by {
                if j != idd {
                    assert(m0.epochs[e].accessed.contains(j));
                }
            }
        }
    }
    assert(m2.wf());
    assert forall|i: int| 0 <= i < m0.items.len() implies (#[trigger] m2.items[i]).extends(
        m0.items[i],
    ) by {
        if i == idd {
            assert forall|k: int| 0 <= k < oldit.counts.len() implies #[trigger] newit.counts[k]
                >= oldit.counts[k] by {
                assert(p[k] == oldit.counts[k]);
                if k != ee {
                    assert(newit.counts[k] == p[k]);
                } else {
                    assert(newit.counts[k] == p[ee] + count);
                }
            }
        }
    }
    assert forall|e: int| 0 <= e < m0.epochs.len() implies (#[trigger] m2.epochs[e]).extends(
        m0.epochs[e],
    ) by {
        if e != ee {
            assert(m2.epochs[e] == m0.epochs[e]);
        }
    }
}

/// All ids that occur in a context or accessed set of some epoch at or after
/// `since`: the candidate antecedents for a growth step.
pub open spec fn antecedent_set(epochs: Seq<EpochModel>, since: int) -> Set<int>
    decreases epochs.len() - since,
{
    if 0 <= since < epochs.len() {
        epochs[since].ctx.union(epochs[since].accessed).union(antecedent_set(epochs, since + 1))
    } else {
        Set::empty()
    }
}

/// All neighbours of the ids in `s`.
pub open spec fn neighborhood(items: Seq<ItemModel>, s: Set<int>) -> Set<int> {
    Set::new(
        |j: int|
            exists|i: int| #[trigger]
                s.contains(i) && 0 <= i < items.len() && items[i].adj.contains(j),
    )
}

/// The one-hop frontier of `s`: all neighbours of `s` that are not in `s`.
pub open spec fn frontier_set(items: Seq<ItemModel>, s: Set<int>) -> Set<int> {
    neighborhood(items, s).difference(s)
}

/// The neighbour set of `i`, empty for ids outside the graph.
pub open spec fn adj_of(items: Seq<ItemModel>, i: int) -> Set<int> {
    if 0 <= i < items.len() {
        items[i].adj
    } else {
        Set::empty()
    }
}

/// Extending the sources of a neighbourhood by one id adds that id's
/// neighbours.
pub proof fn lemma_neighborhood_step(items: Seq<ItemModel>, srcs: Seq<usize>, k: int)
    requires
        0 <= k < srcs.len(),
        (srcs[k] as int) < items.len(),
    ensures
        neighborhood(items, crate::idvec::id_set(srcs.take(k + 1))) =~= neighborhood(
            items,
            crate::idvec::id_set(srcs.take(k)),
        ).union(adj_of(items, srcs[k] as int)),
{
    let shorter = srcs.take(k);
    let longer = srcs.take(k + 1);
    let small = crate::idvec::id_set(shorter);
    let big = crate::idvec::id_set(longer);
    assert forall|j: int| neighborhood(items, big).contains(j) implies neighborhood(
        items,
        small,
    ).union(adj_of(items, srcs[k] as int)).contains(j) by {
        let i = choose|i: int| #[trigger]
            big.contains(i) && 0 <= i < items.len() && items[i].adj.contains(j);
        let m = choose|m: int| 0 <= m < longer.len() && longer[m] == i;
        if m < k {
            assert(shorter[m] == i);
            assert(small.contains(i));
        } else {
            assert(i == srcs[k]);
        }
    }
    assert forall|j: int|
        neighborhood(items, small).union(adj_of(items, srcs[k] as int)).contains(
            j,
        ) implies neighborhood(items, big).contains(j) by {
        if neighborhood(items, small).contains(j) {
            let i = choose|i: int| #[trigger]
                small.contains(i) && 0 <= i < items.len() && items[i].adj.contains(j);
            let m = choose|m: int| 0 <= m < shorter.len() && shorter[m] == i;
            assert(longer[m] == i);
            assert(big.contains(i));
        } else {
            let i = srcs[k] as int;
            assert(longer[k] == srcs[k]);
            assert(big.contains(i));
        }
    }
}

pub proof fn lemma_recent_total_nonneg(counts: Seq<int>, since: int)
    requires
        forall|e: int| 0 <= e < counts.len() ==> 0 <= #[trigger] counts[e],
    ensures
        0 <= recent_total(counts, since),
    decreases counts.len(),
{
    if counts.len() > 0 {
        lemma_recent_total_nonneg(counts.drop_last(), since);
    }
}

/// The total over a prefix is no larger than the total over the whole.
pub proof fn lemma_recent_total_prefix(counts: Seq<int>, since: int, i: int)
    requires
        forall|e: int| 0 <= e < counts.len() ==> 0 <= #[trigger] counts[e],
        0 <= i <= counts.len(),
    ensures
        recent_total(counts.take(i), since) <= recent_total(counts, since),
    decreases counts.len(),
{
    if i == counts.len() {
        assert(counts.take(i) =~= counts);
    } else {
        assert(counts.drop_last().take(i) =~= counts.take(i));
        lemma_recent_total_prefix(counts.drop_last(), since, i);
    }
}

/// Restricting the horizon can only shrink the total.
pub proof fn lemma_recent_total_mono(counts: Seq<int>, s1: int, s2: int)
    requires
        forall|e: int| 0 <= e < counts.len() ==> 0 <= #[trigger] counts[e],
        s1 >= s2,
    ensures
        recent_total(counts, s1) <= recent_total(counts, s2),
    decreases counts.len(),
{
    if counts.len() > 0 {
        lemma_recent_total_mono(counts.drop_last(), s1, s2);
    }
}

pub proof fn lemma_recent_total_padded(counts: Seq<int>, e: int, since: int)
    ensures
        recent_total(padded(counts, e), since) == recent_total(counts, since),
    decreases padded(counts, e).len() - counts.len(),
{
    let p = padded(counts, e);
    if e < counts.len() {
    } else if p.len() == counts.len() {
        assert(p =~= counts);
    } else {
        assert(p.drop_last() =~= padded(counts, e - 1));
        assert(p.last() == 0);
        lemma_recent_total_padded(counts, e - 1, since);
    }
}

pub proof fn lemma_recent_total_update(counts: Seq<int>, e: int, add: int, since: int)
    requires
        0 <= e < counts.len(),
    ensures
        recent_total(counts.update(e, counts[e] + add), since) == recent_total(counts, since)
            + if e >= since {
            add
        } else {
            0
        },
    decreases counts.len(),
{
    let u = counts.update(e, counts[e] + add);
    if e == counts.len() - 1 {
        assert(u.drop_last() =~= counts.drop_last());
        assert(u.last() == counts.last() + add);
    } else {
        assert(u.drop_last() =~= counts.drop_last().update(e, counts.drop_last()[e] + add));
        assert(u.last() == counts.last());
        lemma_recent_total_update(counts.drop_last(), e, add, since);
    }
}

/// Overall effect of a bump on a recent total.
pub proof fn lemma_recent_total_bumped(counts: Seq<int>, e: int, count: int, since: int)
    requires
        0 <= e,
    ensures
        recent_total(bumped(counts, e, count), since) == recent_total(counts, since)
            + if e >= since {
            count
        } else {
            0
        },
{
    let p = padded(counts, e);
    lemma_recent_total_padded(counts, e, since);
    lemma_recent_total_update(p, e, count, since);
    assert(p.update(e, p[e] + count) =~= bumped(counts, e, count));
}

/// A single entry is no larger than the total from any horizon at or below it.
pub proof fn lemma_entry_le_recent_total(counts: Seq<int>, e: int, since: int)
    requires
        forall|k: int| 0 <= k < counts.len() ==> 0 <= #[trigger] counts[k],
        0 <= since <= e,
        e < counts.len(),
    ensures
        counts[e] <= recent_total(counts, since),
    decreases counts.len(),
{
    if e == counts.len() - 1 {
        lemma_recent_total_nonneg(counts.drop_last(), since);
    } else {
        lemma_entry_le_recent_total(counts.drop_last(), e, since);
    }
}

/// Appending an epoch enlarges the antecedent set by that epoch's ids.
pub proof fn lemma_antecedent_set_push(epochs: Seq<EpochModel>, ep: EpochModel, since: int)
    requires
        0 <= since <= epochs.len(),
    ensures
        antecedent_set(epochs.push(ep), since) =~= antecedent_set(epochs, since).union(
            ep.ctx,
        ).union(ep.accessed),
    decreases epochs.len() - since,
{
    let t = epochs.push(ep);
    if since == epochs.len() {
        assert(antecedent_set(epochs, since) =~= Set::empty());
        assert(antecedent_set(t, since + 1) =~= Set::empty());
        assert(t[since] == ep);
    } else {
        lemma_antecedent_set_push(epochs, ep, since + 1);
        assert(t[since] == epochs[since]);
    }
}

/// Every context at or after `since` is contained in the antecedent set.
pub proof fn lemma_ctx_in_antecedent_set(epochs: Seq<EpochModel>, since: int, e: int)
    requires
        0 <= since <= e < epochs.len(),
    ensures
        epochs[e].ctx.subset_of(antecedent_set(epochs, since)),
    decreases e - since,
{
    if since < e {
        lemma_ctx_in_antecedent_set(epochs, since + 1, e);
    }
}

} // verus!
