//! The knowledge network: artifacts, the epoch log, and the primitive
//! operations that mutate or read the graph.

use vstd::prelude::*;
use crate::idvec::below;
use crate::idvec::id_set;
use crate::idvec::range_ids;
use crate::idvec::lemma_id_set_len;
use crate::idvec::lemma_id_set_push;
use crate::idvec::lemma_below_len;
use crate::model::CTX_MIN_SIZE;
use crate::model::NET_MAX_SIZE;
use crate::model::ItemModel;
use crate::model::EpochModel;
use crate::model::NetworkModel;
use crate::model::imax;
use crate::model::recent_total;
use crate::model::bumped;
use crate::model::lemma_recent_total_nonneg;
use crate::model::lemma_recent_total_prefix;
use crate::model::lemma_recent_total_mono;
use crate::model::lemma_entry_le_recent_total;
use crate::model::spec_record_access;
use crate::model::frontier_set;
use crate::model::neighborhood;
use crate::model::adj_of;
use crate::model::lemma_neighborhood_step;
use crate::idvec::holds_id;
use crate::idvec::push_if_absent;

verus! {

/// Why a growth step was refused.
#[derive(Debug, Clone, Copy, PartialEq, Eq, Structural)]
pub enum GrowError {
    /// The network already holds `max_size` artifacts.
    Full,
}

/// A single knowledge artifact.
pub(crate) struct Item {
    /// Name of the mechanism that produced this artifact.
    pub(crate) mech: String,
    /// Opaque payload; the network never parses it.
    pub(crate) data: String,
    /// `counts[e]` is the number of accesses recorded for epoch `e`.
    pub(crate) counts: Vec<u64>,
    /// Ids of adjacent artifacts, without duplicates.
    pub(crate) adj: Vec<usize>,
    /// This artifact's id: its index in the graph.
    pub(crate) id: usize,
}

impl View for Item {
    type V = ItemModel;

    closed spec fn view(&self) -> ItemModel {
        ItemModel {
            mech: self.mech@,
            data: self.data@,
            counts: self.counts@.map_values(|c: u64| c as int),
            adj: id_set(self.adj@),
            id: self.id as int,
        }
    }
}

impl Item {
    /// A fresh artifact with no recorded accesses.
    pub(crate) fn new(mech: String, adj: Vec<usize>, data: String, id: usize) -> (r: Item)
        ensures
            r.mech@ == mech@,
            r.data@ == data@,
            r.counts@ == Seq::<u64>::empty(),
            r.adj@ == adj@,
            r.id == id,
            r@.counts =~= Seq::<int>::empty(),
    {
        let r = Item { mech, data: data, counts: Vec::new(), adj, id };
        assert(r@.counts =~= Seq::<int>::empty());
        r
    }

    /// Adds `count` accesses for the given epoch, creating the entry at zero.
    pub(crate) fn add_count(&mut self, epoch: usize, count: u64)
        requires
            recent_total(old(self)@.counts, 0) + count <= u64::MAX,
        ensures
            final(self)@.counts =~= bumped(old(self)@.counts, epoch as int, count as int),
            final(self).mech == old(self).mech,
            final(self).data == old(self).data,
            final(self).adj == old(self).adj,
            final(self).id == old(self).id,
    {
        proof {
            lemma_counts_view_nonneg(*old(self));
        }
        let ghost prior = self@.counts;
        while self.counts.len() <= epoch
            invariant
                prior == old(self)@.counts,
                self.mech == old(self).mech,
                self.data == old(self).data,
                self.adj == old(self).adj,
                self.id == old(self).id,
                self@.counts =~= crate::model::padded(prior, self.counts@.len() - 1),
                prior.len() <= self@.counts.len(),
                self.counts@.len() <= epoch + 1 || self.counts@.len() == prior.len(),
            decreases epoch - self.counts.len() + 1,
        {
            let ghost before = self@.counts;
            self.counts.push(0);
            assert(self@.counts =~= before.push(0));
            assert(self@.counts =~= crate::model::padded(prior, self.counts@.len() - 1));
        }
        assert(self@.counts =~= crate::model::padded(prior, epoch as int)) by {
            if self.counts@.len() == epoch + 1 {
                assert(self@.counts =~= crate::model::padded(prior, epoch as int));
            } else {
                assert(self.counts@.len() == prior.len());
                assert(prior.len() > epoch);
                assert(crate::model::padded(prior, epoch as int) == prior);
                assert(crate::model::padded(prior, self.counts@.len() - 1) == prior);
            }
        }
        let ghost mid = self@.counts;
        let prev = self.counts[epoch];
        assert(prev as int == mid[epoch as int]);
        assert(prev + count <= u64::MAX) by {
            assert forall|k: int| 0 <= k < mid.len() implies 0 <= #[trigger] mid[k] by {
                if k < prior.len() {
                    assert(mid[k] == prior[k]);
                }
            }
            crate::model::lemma_recent_total_padded(prior, epoch as int, 0);
            lemma_entry_le_recent_total(mid, epoch as int, 0);
        }
        self.counts[epoch] = prev + count;
        assert(self@.counts =~= mid.update(epoch as int, mid[epoch as int] + count));
        assert(self@.counts =~= bumped(prior, epoch as int, count as int));
    }

    /// The number of accesses to this artifact at or after `epoch`.
    pub(crate) fn recent_count(&self, epoch: usize) -> (r: u64)
        requires
            recent_total(self@.counts, 0) <= u64::MAX,
        ensures
            r == recent_total(self@.counts, epoch as int),
    {
        proof {
            lemma_counts_view_nonneg(*self);
        }
        let ghost m = self@.counts;
        let n = self.counts.len();
        let mut acc: u64 = 0;
        let mut e: usize = 0;
        while e < n
            invariant
                n == self.counts@.len(),
                m == self@.counts,
                m.len() == n,
                e <= n,
                forall|k: int| 0 <= k < m.len() ==> 0 <= #[trigger] m[k],
                recent_total(m, 0) <= u64::MAX,
                acc == recent_total(m.take(e as int), epoch as int),
            decreases n - e,
        {
            assert(m.take(e + 1).drop_last() =~= m.take(e as int));
            assert(m.take(e + 1).last() == m[e as int]);
            if e >= epoch {
                assert(m[e as int] == self.counts@[e as int] as int);
                assert(acc + m[e as int] <= u64::MAX) by {
                    lemma_recent_total_mono_take_plus(m, epoch as int, e as int);
                    lemma_recent_total_prefix(m, epoch as int, e + 1);
                    lemma_recent_total_mono(m, epoch as int, 0);
                    lemma_recent_total_nonneg(m.take(e as int), epoch as int);
                }
                acc = acc + self.counts[e];
                assert(acc == recent_total(m.take(e + 1), epoch as int)) by {
                    lemma_recent_total_mono_take_plus(m, epoch as int, e as int);
                }
            }
            e = e + 1;
        }
        assert(m.take(n as int) =~= m);
        acc
    }
}

proof fn lemma_counts_view_nonneg(item: Item)
    ensures
        forall|k: int| 0 <= k < item@.counts.len() ==> 0 <= #[trigger] item@.counts[k],
{
    assert forall|k: int| 0 <= k < item@.counts.len() implies 0 <= #[trigger] item@.counts[k] by {
        assert(item@.counts[k] == item.counts@[k] as int);
    }
}

/// Helper: adding entry `e` to the prefix adds exactly `m[e]` when `e` is at
/// or past the horizon.
proof fn lemma_recent_total_mono_take_plus(m: Seq<int>, epoch: int, e: int)
    requires
        0 <= e < m.len(),
        e >= epoch,
    ensures
        recent_total(m.take(e + 1), epoch) == recent_total(m.take(e), epoch) + m[e],
{
    assert(m.take(e + 1).drop_last() =~= m.take(e));
    assert(m.take(e + 1).last() == m[e]);
}

/// One entry of the epoch log.
pub(crate) struct Epoch {
    pub(crate) center: usize,
    pub(crate) ctx: Vec<usize>,
    pub(crate) accessed: Vec<usize>,
}

impl View for Epoch {
    type V = EpochModel;

    closed spec fn view(&self) -> EpochModel {
        EpochModel {
            center: self.center as int,
            ctx: id_set(self.ctx@),
            accessed: id_set(self.accessed@),
        }
    }
}

impl Epoch {
    /// Inserts `id` into the accessed set; idempotent.
    pub(crate) fn note_access(&mut self, id: usize)
        requires
            old(self).accessed@.no_duplicates(),
        ensures
            final(self).accessed@.no_duplicates(),
            final(self)@.accessed =~= old(self)@.accessed.insert(id as int),
            final(self).center == old(self).center,
            final(self).ctx == old(self).ctx,
            forall|j: int|
                0 <= j < final(self).accessed@.len() ==> (final(self).accessed@[j] == id || old(
                    self,
                ).accessed@.contains(final(self).accessed@[j])),
    {
        push_if_absent(&mut self.accessed, id);
    }
}

/// The knowledge network.
pub struct Network {
    /// Minimum context size; raised to the embryo size at construction if the
    /// embryo is larger, never decreased afterwards.
    context_min_size: usize,
    /// Upper bound on the number of artifacts.
    max_size: usize,
    /// The graph: artifact `i` is `graph[i]`.
    graph: Vec<Item>,
    /// The append-only epoch log.
    epochs: Vec<Epoch>,
}

impl View for Network {
    type V = NetworkModel;

    closed spec fn view(&self) -> NetworkModel {
        NetworkModel {
            items: self.graph@.map_values(|it: Item| it@),
            epochs: self.epochs@.map_values(|ep: Epoch| ep@),
            context_min_size: self.context_min_size as int,
            max_size: self.max_size as int,
        }
    }
}

impl Network {
    /// Concrete representation invariant: ids match indices and the vectors
    /// that stand for sets are duplicate-free.
    pub closed spec fn inv(self) -> bool {
        &&& forall|i: int|
            0 <= i < self.graph@.len() ==> (#[trigger] self.graph@[i]).id == i
                && self.graph@[i].adj@.no_duplicates()
        &&& forall|e: int|
            0 <= e < self.epochs@.len() ==> (#[trigger] self.epochs@[e]).ctx@.no_duplicates()
                && self.epochs@[e].accessed@.no_duplicates()
    }

    /// The network is well-formed.
    pub open spec fn wf(self) -> bool {
        self.inv() && self@.wf()
    }

    /// Builds the initial network from a non-empty embryo of
    /// `(mechanism name, payload)` pairs: the complete graph over the embryo,
    /// one initial epoch whose context is the whole embryo, and the minimum
    /// context size raised to the embryo size if that is larger.
    pub fn new(embryo: Vec<(String, String)>) -> (r: Network)
        requires
            embryo@.len() >= 1,
        ensures
            r.wf(),
            new_post(r@, embryo@.map_values(|p: (String, String)| (p.0@, p.1@)), NET_MAX_SIZE as int),
    {
        Network::with_limits(embryo, NET_MAX_SIZE)
    }

    /// As `new`, with an explicit upper bound on the network size.
    pub fn with_limits(embryo: Vec<(String, String)>, max_size: usize) -> (r: Network)
        requires
            embryo@.len() >= 1,
        ensures
            r.wf(),
            new_post(r@, embryo@.map_values(|p: (String, String)| (p.0@, p.1@)), max_size as int),
    {
        let n = embryo.len();
        let mut graph: Vec<Item> = Vec::new();
        let mut i: usize = 0;
        while i < n
            invariant
                n == embryo@.len(),
                i <= n,
                graph@.len() == i,
                forall|k: int|
                    0 <= k < i ==> {
                        let it = #[trigger] graph@[k];
                        &&& it.id == k
                        &&& it.adj@.no_duplicates()
                        &&& it@.mech == embryo@[k].0@
                        &&& it@.data == embryo@[k].1@
                        &&& it@.counts =~= Seq::<int>::empty()
                        &&& it@.adj =~= below(n as int).remove(k)
                    },
            decreases n - i,
        {
            let adjv = clique_adj(n, i);
            let pair = &embryo[i];
            let item = Item::new(pair.0.clone(), adjv, pair.1.clone(), i);
            proof {
                assert(item@.adj =~= below(n as int).remove(i as int));
            }
            graph.push(item);
            i = i + 1;
        }
        let ctxv = range_ids(n);
        let mut epochs: Vec<Epoch> = Vec::new();
        epochs.push(Epoch { center: 0, ctx: ctxv, accessed: Vec::new() });
        let context_min_size = if n > CTX_MIN_SIZE {
            n
        } else {
            CTX_MIN_SIZE
        };
        let r = Network { context_min_size, max_size, graph, epochs };
        proof {
            let m = r@;
            let ghost emb = embryo@.map_values(|p: (String, String)| (p.0@, p.1@));
            assert(m.items.len() == n);
            assert(m.epochs.len() == 1);
            assert forall|k: int| 0 <= k < n implies (#[trigger] m.items[k]).wf(k, n as int) by {
                assert(m.items[k] == r.graph@[k]@);
                lemma_below_len(n as int);
                assert(m.items[k].adj =~= below(n as int).remove(k));
                assert(recent_total(m.items[k].counts, 0) == 0);
            }
            assert forall|a: int, b: int|
                0 <= a < n && #[trigger] m.items[a].adj.contains(b) implies m.items[b].adj.contains(
                a,
            ) by {
                assert(m.items[a].adj =~= below(n as int).remove(a));
                assert(0 <= b < n && b != a);
                assert(m.items[b].adj =~= below(n as int).remove(b));
            }
            assert forall|a: int| 0 <= a < n && n >= 2 implies (#[trigger] m.items[a].adj).len()
                >= 1 by {
                lemma_below_len(n as int);
                assert(m.items[a].adj =~= below(n as int).remove(a));
                assert(below(n as int).contains(a));
                assert(below(n as int).remove(a).len() == n - 1);
            }
            assert(m.epochs[0] == r.epochs@[0]@);
            lemma_below_len(n as int);
            assert(m.epochs[0].ctx =~= below(n as int));
            assert(m.epochs[0].accessed =~= Set::<int>::empty());
            assert(m.epochs[0].wf(n as int, m.context_min_size));
            assert(m.wf());
            assert(emb.len() == n);
            assert forall|k: int| 0 <= k < n implies (#[trigger] m.items[k]).mech == emb[k].0
                && m.items[k].data == emb[k].1 by {
                assert(emb[k] == (embryo@[k].0@, embryo@[k].1@));
            }
        }
        r
    }

    /// Records `count` accesses to artifact `id` for the given epoch: the
    /// artifact's count for that epoch grows by `count` and the id is added to
    /// the epoch's accessed set.
    pub fn item_count(&mut self, epoch: usize, id: usize, count: u64)
        requires
            old(self).wf(),
            (epoch as int) < old(self)@.epochs.len(),
            (id as int) < old(self)@.n(),
            recent_total(old(self)@.items[id as int].counts, 0) + count <= u64::MAX,
        ensures
            final(self).wf(),
            final(self)@ == spec_record_access(old(self)@, epoch as int, id as int, count as int),
            final(self)@.extends(old(self)@),
    {
        let ghost m0 = self@;
        let ghost idd = id as int;
        let ghost ee = epoch as int;
        self.graph[id].add_count(epoch, count);
        let ghost m1 = self@;
        proof {
            assert(m1.items =~= m0.items.update(idd, m1.items[idd]));
            assert(m1.items[idd] =~~= ItemModel {
                counts: bumped(m0.items[idd].counts, ee, count as int),
                ..m0.items[idd]
            });
            assert(m1.epochs == m0.epochs);
        }
        self.epochs[epoch].note_access(id);
        let ghost m2 = self@;
        proof {
            assert(m2.epochs =~= m1.epochs.update(ee, m2.epochs[ee]));
            assert(m2.epochs[ee] =~~= EpochModel {
                accessed: m1.epochs[ee].accessed.insert(idd),
                ..m1.epochs[ee]
            });
            assert(m2.items == m1.items);
            assert(m2 =~~= spec_record_access(m0, ee, idd, count as int));
            crate::model::lemma_record_access_wf(m0, ee, idd, count as int);
            assert(self.inv()) by {
                assert forall|i: int| 0 <= i < self.graph@.len() implies (
                #[trigger] self.graph@[i]).id == i && self.graph@[i].adj@.no_duplicates() by {
                    assert(old(self).graph@[i].id == i);
                    assert(old(self).graph@[i].adj@.no_duplicates());
                    if i != idd {
                        assert(self.graph@[i] == old(self).graph@[i]);
                    }
                }
                assert forall|e: int| 0 <= e < self.epochs@.len() implies (
                #[trigger] self.epochs@[e]).ctx@.no_duplicates()
                    && self.epochs@[e].accessed@.no_duplicates() by {
                    assert(old(self).epochs@[e].ctx@.no_duplicates());
                    assert(old(self).epochs@[e].accessed@.no_duplicates());
                    if e != ee {
                        assert(self.epochs@[e] == old(self).epochs@[e]);
                    }
                }
            }
        }
    }

    /// All neighbours of the given ids that are not among them: the one-hop
    /// frontier of `items` in the current graph.
    pub fn frontier_of(&self, items: &Vec<usize>) -> (r: Vec<usize>)
        requires
            self.wf(),
            forall|k: int| 0 <= k < items@.len() ==> (#[trigger] items@[k] as int) < self@.n(),
        ensures
            r@.no_duplicates(),
            id_set(r@) =~= frontier_set(self@.items, id_set(items@)),
            forall|k: int| 0 <= k < r@.len() ==> (#[trigger] r@[k] as int) < self@.n(),
    {
        let ghost arts = self@.items;
        let n = items.len();
        let mut r: Vec<usize> = Vec::new();
        let mut k: usize = 0;
        while k < n
            invariant
                self.wf(),
                arts == self@.items,
                n == items@.len(),
                k <= n,
                forall|t: int| 0 <= t < items@.len() ==> (#[trigger] items@[t] as int) < arts.len(),
                r@.no_duplicates(),
                id_set(r@) =~= neighborhood(arts, id_set(items@.take(k as int))).difference(
                    id_set(items@),
                ),
                forall|t: int| 0 <= t < r@.len() ==> (#[trigger] r@[t] as int) < arts.len(),
            decreases n - k,
        {
            let src = items[k];
            let m = self.graph[src].adj.len();
            let ghost av = self.graph@[src as int].adj@;
            proof {
                assert(arts[src as int].adj == id_set(av));
            }
            let mut j: usize = 0;
            while j < m
                invariant
                    self.wf(),
                    arts == self@.items,
                    n == items@.len(),
                    k < n,
                    src == items@[k as int],
                    (src as int) < arts.len(),
                    av == self.graph@[src as int].adj@,
                    m == av.len(),
                    j <= m,
                    forall|t: int|
                        0 <= t < items@.len() ==> (#[trigger] items@[t] as int) < arts.len(),
                    r@.no_duplicates(),
                    id_set(r@) =~= neighborhood(arts, id_set(items@.take(k as int))).union(
                        id_set(av.take(j as int)),
                    ).difference(id_set(items@)),
                    forall|t: int| 0 <= t < r@.len() ==> (#[trigger] r@[t] as int) < arts.len(),
                decreases m - j,
            {
                let o = self.graph[src].adj[j];
                proof {
                    assert(av.take(j + 1) =~= av.take(j as int).push(o));
                    lemma_id_set_push(av.take(j as int), o);
                    assert(id_set(av).contains(o as int)) by {
                        assert(av[j as int] == o);
                    }
                    assert((o as int) < arts.len()) by {
                        assert(arts[src as int].adj.contains(o as int));
                    }
                }
                let ghost rprev = r@;
                let inside = holds_id(items, o);
                if !inside {
                    push_if_absent(&mut r, o);
                }
                proof {
                    assert(id_set(r@) =~= neighborhood(arts, id_set(items@.take(k as int))).union(
                        id_set(av.take(j + 1)),
                    ).difference(id_set(items@)));
                }
                j = j + 1;
            }
            proof {
                assert(av.take(m as int) =~= av);
                lemma_neighborhood_step(arts, items@, k as int);
                assert(adj_of(arts, items@[k as int] as int) == id_set(av));
            }
            k = k + 1;
        }
        proof {
            assert(items@.take(n as int) =~= items@);
        }
        r
    }

    /// For each given id, that artifact's id, mechanism name and payload.
    pub fn ids_to_contents(&self, items: &Vec<usize>) -> (r: Vec<(usize, String, String)>)
        requires
            self.wf(),
            forall|k: int| 0 <= k < items@.len() ==> (#[trigger] items@[k] as int) < self@.n(),
        ensures
            r@.len() == items@.len(),
            forall|t: int|
                0 <= t < r@.len() ==> {
                    let e = #[trigger] r@[t];
                    &&& e.0 == items@[t]
                    &&& e.1@ == self@.items[items@[t] as int].mech
                    &&& e.2@ == self@.items[items@[t] as int].data
                },
    {
        let n = items.len();
        let mut r: Vec<(usize, String, String)> = Vec::new();
        let mut k: usize = 0;
        while k < n
            invariant
                self.wf(),
                n == items@.len(),
                k <= n,
                forall|t: int| 0 <= t < items@.len() ==> (#[trigger] items@[t] as int) < self@.n(),
                r@.len() == k,
                forall|t: int|
                    0 <= t < k ==> {
                        let e = #[trigger] r@[t];
                        &&& e.0 == items@[t]
                        &&& e.1@ == self@.items[items@[t] as int].mech
                        &&& e.2@ == self@.items[items@[t] as int].data
                    },
            decreases n - k,
        {
            let src = items[k];
            let entry = (src, self.graph[src].mech.clone(), self.graph[src].data.clone());
            r.push(entry);
            k = k + 1;
        }
        r
    }

    /// A context handle for the latest epoch: its items are that epoch's
    /// context, its frontier is one hop outside them, and both of its epoch
    /// fields are the latest epoch.
    pub fn context(&self, mech: String) -> (r: Context)
        requires
            self.wf(),
        ensures
            r.valid_for(self@),
            r.mech@ == mech@,
            r.items@.no_duplicates(),
            id_set(r.items@) =~= self@.epochs.last().ctx,
            r.items@.len() == self@.epochs.last().ctx.len(),
            id_set(r.frontier@) =~= frontier_set(self@.items, self@.epochs.last().ctx),
            r.initial_epoch as int == self@.epochs.len() - 1,
            r.current_epoch as int == self@.epochs.len() - 1,
    {
        let epoch = self.epochs.len() - 1;
        let itemsv = copy_ids(&self.epochs[epoch].ctx);
        proof {
            assert(self.epochs@[epoch as int]@ == self@.epochs[epoch as int]);
            assert(id_set(itemsv@) == self@.epochs.last().ctx);
            assert forall|t: int| 0 <= t < itemsv@.len() implies (#[trigger] itemsv@[t] as int)
                < self@.n() by {
                assert(id_set(itemsv@).contains(itemsv@[t] as int)) by {
                    assert(itemsv@[t] == itemsv@[t]);
                }
                assert(self@.epochs.last().ctx.contains(itemsv@[t] as int));
            }
            crate::idvec::lemma_id_set_len(itemsv@);
        }
        let frontier = self.frontier_of(&itemsv);
        let r = Context {
            mech,
            items: itemsv,
            frontier,
            initial_epoch: epoch,
            current_epoch: epoch,
        };
        proof {
            assert(id_set(r.frontier@).disjoint(id_set(r.items@))) by {
                assert forall|j: int| id_set(r.frontier@).contains(j) implies !id_set(
                    r.items@,
                ).contains(j) by {
                    assert(frontier_set(self@.items, id_set(r.items@)).contains(j));
                }
            }
        }
        r
    }

    /// The id among `cand` with the most accesses at or after `since`.
    fn argmax_recent(&self, cand: &Vec<usize>, since: usize) -> (r: usize)
        requires
            self.wf(),
            cand@.len() >= 1,
            forall|t: int| 0 <= t < cand@.len() ==> (#[trigger] cand@[t] as int) < self@.n(),
        ensures
            cand@.contains(r),
            (r as int) < self@.n(),
            crate::model::outranks_all(self@, r as int, id_set(cand@), since as int),
    {
        let mut best = cand[0];
        assert(cand@.contains(best)) by {
            assert(cand@[0] == best);
        }
        let best_c0 = self.count_of(best, since);
        let mut best_c = best_c0;
        let n = cand.len();
        let mut k: usize = 1;
        while k < n
            invariant
                self.wf(),
                n == cand@.len(),
                1 <= k <= n,
                forall|t: int| 0 <= t < cand@.len() ==> (#[trigger] cand@[t] as int) < self@.n(),
                cand@.contains(best),
                (best as int) < self@.n(),
                best_c == recent_total(self@.items[best as int].counts, since as int),
                forall|t: int|
                    0 <= t < k ==> best_c >= recent_total(
                        self@.items[(#[trigger] cand@[t]) as int].counts,
                        since as int,
                    ),
            decreases n - k,
        {
            let c = cand[k];
            let cc = self.count_of(c, since);
            if cc > best_c {
                best = c;
                best_c = cc;
                assert(cand@.contains(best)) by {
                    assert(cand@[k as int] == best);
                }
            }
            k = k + 1;
        }
        proof {
            assert forall|b: int| #[trigger] id_set(cand@).contains(b) implies recent_total(
                self@.items[best as int].counts,
                since as int,
            ) >= recent_total(self@.items[b].counts, since as int) by {
                let t = choose|t: int| 0 <= t < cand@.len() && cand@[t] == b;
                assert(best_c >= recent_total(self@.items[(cand@[t]) as int].counts, since as int));
            }
        }
        best
    }

    /// The number of accesses to artifact `id` at or after `since`.
    pub fn count_of(&self, id: usize, since: usize) -> (r: u64)
        requires
            self.wf(),
            (id as int) < self@.n(),
        ensures
            r == recent_total(self@.items[id as int].counts, since as int),
    {
        proof {
            assert(self@.items[id as int].wf(id as int, self@.n()));
            assert(self.graph@[id as int]@ == self@.items[id as int]);
        }
        self.graph[id].recent_count(since)
    }

    /// The `k` ids of `cand` with the most accesses at or after `since`:
    /// every selected id has at least as many as every id left behind.
    fn select_top(&self, cand: Vec<usize>, k: usize, since: usize) -> (r: Vec<usize>)
        requires
            self.wf(),
            cand@.no_duplicates(),
            forall|t: int| 0 <= t < cand@.len() ==> (#[trigger] cand@[t] as int) < self@.n(),
            k <= cand@.len(),
        ensures
            r@.len() == k,
            r@.no_duplicates(),
            forall|t: int| 0 <= t < r@.len() ==> id_set(cand@).contains(#[trigger] r@[t] as int),
            forall|t: int| 0 <= t < r@.len() ==> (#[trigger] r@[t] as int) < self@.n(),
            forall|t: int|
                0 <= t < r@.len() ==> crate::model::outranks_all(
                    self@,
                    (#[trigger] r@[t]) as int,
                    id_set(cand@).difference(id_set(r@)),
                    since as int,
                ),
    {
        let ghost call = cand@;
        let mut rem = cand;
        let mut r: Vec<usize> = Vec::new();
        let mut i: usize = 0;
        while i < k
            invariant
                self.wf(),
                i <= k,
                k <= call.len(),
                r@.len() == i,
                rem@.len() + i == call.len(),
                rem@.no_duplicates(),
                r@.no_duplicates(),
                forall|t: int| 0 <= t < rem@.len() ==> (#[trigger] rem@[t] as int) < self@.n(),
                forall|t: int| 0 <= t < r@.len() ==> (#[trigger] r@[t] as int) < self@.n(),
                id_set(r@).union(id_set(rem@)) =~= id_set(call),
                id_set(r@).disjoint(id_set(rem@)),
                forall|t: int|
                    0 <= t < r@.len() ==> crate::model::outranks_all(
                        self@,
                        (#[trigger] r@[t]) as int,
                        id_set(rem@),
                        since as int,
                    ),
            decreases k - i,
        {
            let m = rem.len();
            let mut best_idx: usize = 0;
            let c0 = rem[0];
            let mut best_c = self.count_of(c0, since);
            let mut t: usize = 1;
            while t < m
                invariant
                    self.wf(),
                    m == rem@.len(),
                    1 <= t <= m,
                    best_idx < m,
                    forall|u: int| 0 <= u < rem@.len() ==> (#[trigger] rem@[u] as int) < self@.n(),
                    best_c == recent_total(
                        self@.items[(rem@[best_idx as int]) as int].counts,
                        since as int,
                    ),
                    forall|u: int|
                        0 <= u < t ==> best_c >= recent_total(
                            self@.items[(#[trigger] rem@[u]) as int].counts,
                            since as int,
                        ),
                decreases m - t,
            {
                let c = rem[t];
                let cc = self.count_of(c, since);
                if cc > best_c {
                    best_idx = t;
                    best_c = cc;
                }
                t = t + 1;
            }
            let ghost remp = rem@;
            let chosen = rem.remove(best_idx);
            proof {
                crate::idvec::lemma_id_set_remove_at(remp, best_idx as int);
                assert(id_set(remp).contains(chosen as int)) by {
                    assert(remp[best_idx as int] == chosen);
                }
            }
            let ghost rp = r@;
            r.push(chosen);
            proof {
                assert(!id_set(rp).contains(chosen as int));
                assert forall|u: int| 0 <= u < rp.len() implies rp[u] != chosen by {
                    if rp[u] == chosen {
                        assert(id_set(rp).contains(chosen as int)) by {
                            assert(rp[u] == chosen);
                        }
                    }
                }
                assert(r@.drop_last() =~= rp);
                lemma_id_set_push(rp, chosen);
                assert(id_set(r@).union(id_set(rem@)) =~= id_set(call));
                assert(id_set(r@).disjoint(id_set(rem@)));
                assert forall|u: int|
                    0 <= u < r@.len() implies crate::model::outranks_all(
                    self@,
                    (#[trigger] r@[u]) as int,
                    id_set(rem@),
                    since as int,
                ) by {
                    if u < rp.len() {
                        assert(r@[u] == rp[u]);
                        assert(crate::model::outranks_all(
                            self@,
                            rp[u] as int,
                            id_set(remp),
                            since as int,
                        ));
                        assert forall|b: int| #[trigger]
                            id_set(rem@).contains(b) implies recent_total(
                            self@.items[(r@[u]) as int].counts,
                            since as int,
                        ) >= recent_total(self@.items[b].counts, since as int) by {
                            assert(id_set(remp).contains(b));
                        }
                    } else {
                        assert(r@[u] == chosen);
                        assert forall|b: int| #[trigger]
                            id_set(rem@).contains(b) implies recent_total(
                            self@.items[chosen as int].counts,
                            since as int,
                        ) >= recent_total(self@.items[b].counts, since as int) by {
                            assert(id_set(remp).contains(b));
                            let w = choose|w: int| 0 <= w < remp.len() && remp[w] == b;
                            assert(best_c >= recent_total(
                                self@.items[(remp[w]) as int].counts,
                                since as int,
                            ));
                        }
                    }
                }
            }
            i = i + 1;
        }
        r
    }

    /// The greedy popularity walk that selects a context of at most `target`
    /// ids around `center`: repeatedly admit the not-yet-admitted neighbours
    /// of the selected artifact, follow the most popular of them, and on the
    /// last step admit only the most popular ones. Every admitted id comes in
    /// through a neighbour set: it is adjacent to the center or to another
    /// admitted id.
    fn select_context(&self, since: usize, center: usize, target: usize) -> (ctx: Vec<usize>)
        requires
            self.wf(),
            (center as int) < self@.n(),
            target >= 1,
        ensures
            ctx@.no_duplicates(),
            forall|t: int| 0 <= t < ctx@.len() ==> (#[trigger] ctx@[t] as int) < self@.n(),
            ctx@.len() <= target,
            self@.items[center as int].adj.len() >= 1 ==> ctx@.len() >= 1,
            forall|j: int| #[trigger]
                id_set(ctx@).contains(j) ==> neighborhood(
                    self@.items,
                    id_set(ctx@).insert(center as int),
                ).contains(j),
            forall|j: int| #[trigger]
                id_set(ctx@).contains(j) ==> crate::model::reaches(
                    self@.items,
                    center as int,
                    j,
                    ctx@.len() as nat,
                ),
    {
        let mut ctx: Vec<usize> = Vec::new();
        let mut selected = center;
        loop
            invariant_except_break
                ctx@.len() <= self@.n(),
                ctx@.len() == 0 ==> selected == center,
                ctx@.len() > 0 ==> id_set(ctx@).contains(selected as int),
            invariant
                self.wf(),
                (center as int) < self@.n(),
                target >= 1,
                (selected as int) < self@.n(),
                ctx@.no_duplicates(),
                forall|t: int| 0 <= t < ctx@.len() ==> (#[trigger] ctx@[t] as int) < self@.n(),
                ctx@.len() <= target,
                forall|j: int| #[trigger]
                    id_set(ctx@).contains(j) ==> neighborhood(
                        self@.items,
                        id_set(ctx@).insert(center as int),
                    ).contains(j),
                forall|j: int| #[trigger]
                    id_set(ctx@).contains(j) ==> crate::model::reaches(
                        self@.items,
                        center as int,
                        j,
                        ctx@.len() as nat,
                    ),
            ensures
                ctx@.no_duplicates(),
                forall|t: int| 0 <= t < ctx@.len() ==> (#[trigger] ctx@[t] as int) < self@.n(),
                ctx@.len() <= target,
                ctx@.len() >= 1 || self@.items[center as int].adj.len() == 0,
                forall|j: int| #[trigger]
                    id_set(ctx@).contains(j) ==> neighborhood(
                        self@.items,
                        id_set(ctx@).insert(center as int),
                    ).contains(j),
                forall|j: int| #[trigger]
                    id_set(ctx@).contains(j) ==> crate::model::reaches(
                        self@.items,
                        center as int,
                        j,
                        ctx@.len() as nat,
                    ),
            decreases self@.n() - ctx@.len(),
        {
            if ctx.len() >= target {
                break;
            }
            let av = &self.graph[selected].adj;
            proof {
                assert(self@.items[selected as int].wf(selected as int, self@.n()));
                assert(id_set(av@) == self@.items[selected as int].adj);
                assert forall|t: int| 0 <= t < av@.len() implies (#[trigger] av@[t] as int)
                    < self@.n() by {
                    assert(id_set(av@).contains(av@[t] as int)) by {
                        assert(av@[t] == av@[t]);
                    }
                }
            }
            let ext = crate::idvec::diff_ids(av, &ctx);
            proof {
                assert forall|t: int| 0 <= t < ext@.len() implies (#[trigger] ext@[t] as int)
                    < self@.n() by {
                    let w = choose|w: int| 0 <= w < av@.len() && av@[w] == ext@[t];
                }
                if ctx@.len() == 0 && self@.items[center as int].adj.len() >= 1 {
                    crate::idvec::lemma_id_set_len(ext@);
                    assert(id_set(ctx@) =~= Set::<int>::empty());
                    assert(id_set(ext@) =~= id_set(av@));
                    crate::idvec::lemma_id_set_len(av@);
                    assert(ext@.len() >= 1);
                }
            }
            if ext.len() == 0 {
                proof {
                    if ctx@.len() == 0 {
                        assert(self@.items[center as int].adj.len() == 0);
                    }
                }
                break;
            }
            if ext.len() > target - ctx.len() {
                let take_n = target - ctx.len();
                let top = self.select_top(ext, take_n, since);
                proof {
                    assert forall|j: int| id_set(top@).contains(j) implies !id_set(
                        ctx@,
                    ).contains(j) by {
                        let w = choose|w: int| 0 <= w < top@.len() && top@[w] == j;
                        assert(id_set(ext@).contains(top@[w] as int));
                        assert(id_set(ext@) =~= id_set(av@).difference(id_set(ctx@)));
                    }
                }
                let ghost cprev = ctx@;
                crate::idvec::append_ids(&mut ctx, &top);
                proof {
                    assert forall|t: int| 0 <= t < ctx@.len() implies (#[trigger] ctx@[t] as int)
                        < self@.n() by {
                        if t < cprev.len() {
                            assert(ctx@[t] == cprev[t]);
                        } else {
                            assert(ctx@[t] == top@[t - cprev.len()]);
                        }
                    }
                    assert forall|j: int| #[trigger] id_set(top@).contains(j) implies adj_of(
                        self@.items,
                        selected as int,
                    ).contains(j) by {
                        let w = choose|w: int| 0 <= w < top@.len() && top@[w] == j;
                        assert(id_set(ext@).contains(top@[w] as int));
                        assert(id_set(ext@) =~= id_set(av@).difference(id_set(cprev)));
                        assert(id_set(av@) == self@.items[selected as int].adj);
                    }
                    lemma_admission_step(self@.items, cprev, ctx@, top@, selected, center);
                }
                break;
            } else {
                let next = self.argmax_recent(&ext, since);
                proof {
                    assert forall|j: int| id_set(ext@).contains(j) implies !id_set(
                        ctx@,
                    ).contains(j) by {
                        assert(id_set(ext@) =~= id_set(av@).difference(id_set(ctx@)));
                    }
                }
                let ghost cprev = ctx@;
                crate::idvec::append_ids(&mut ctx, &ext);
                proof {
                    assert forall|t: int| 0 <= t < ctx@.len() implies (#[trigger] ctx@[t] as int)
                        < self@.n() by {
                        if t < cprev.len() {
                            assert(ctx@[t] == cprev[t]);
                        } else {
                            assert(ctx@[t] == ext@[t - cprev.len()]);
                        }
                    }
                    assert forall|j: int| #[trigger] id_set(ext@).contains(j) implies adj_of(
                        self@.items,
                        selected as int,
                    ).contains(j) by {
                        assert(id_set(ext@) =~= id_set(av@).difference(id_set(cprev)));
                        assert(id_set(av@) == self@.items[selected as int].adj);
                    }
                    lemma_admission_step(self@.items, cprev, ctx@, ext@, selected, center);
                    assert(id_set(ctx@).contains(next as int)) by {
                        let w = choose|w: int| 0 <= w < ext@.len() && ext@[w] == next;
                        crate::idvec::lemma_id_set_concat(cprev, ext@);
                        assert(id_set(ext@).contains(next as int)) by {
                            assert(ext@[w] == next);
                        }
                    }
                    crate::idvec::lemma_id_set_len(ctx@);
                    lemma_below_len(self@.n());
                    assert(id_set(ctx@).subset_of(below(self@.n()))) by {
                        assert forall|j: int| id_set(ctx@).contains(j) implies below(
                            self@.n(),
                        ).contains(j) by {
                            let w = choose|w: int| 0 <= w < ctx@.len() && ctx@[w] == j;
                        }
                    }
                    vstd::set_lib::lemma_len_subset(id_set(ctx@), below(self@.n()));
                }
                selected = next;
            }
        }
        ctx
    }

    /// Appends a new epoch centered on artifact `id`: if the graph is smaller
    /// than the minimum context size the context is the whole graph, otherwise
    /// it is chosen by a popularity walk around `id` toward a randomly drawn
    /// target size. Access counts at or after `epoch` define popularity.
    pub fn orient(&mut self, epoch: usize, id: usize)
        requires
            old(self).wf(),
            (id as int) < old(self)@.n(),
        ensures
            final(self).wf(),
            crate::model::orient_post(old(self)@, final(self)@, epoch as int, id as int),
    {
        let ghost m0 = self@;
        let n = self.graph.len();
        let ctxv: Vec<usize>;
        if n < self.context_min_size {
            ctxv = range_ids(n);
            proof {
                lemma_below_len(n as int);
                crate::idvec::lemma_id_set_len(ctxv@);
            }
        } else {
            // target size: between half the square root of n and half of n,
            // clamped to [context_min_size, n]
            let root = isqrt(n);
            let lo = root / 2;
            let half = n / 2;
            let hi = if half > lo {
                half
            } else {
                lo + 1
            };
            let k = lo + crate::rng::rand_index(hi - lo);
            let capped = if k < n {
                k
            } else {
                n
            };
            let target = if capped > self.context_min_size {
                capped
            } else {
                self.context_min_size
            };
            ctxv = self.select_context(epoch, id, target);
            proof {
                assert(m0.n() >= 2);
                assert(m0.items[id as int].adj.len() >= 1);
                assert(ctxv@.len() >= 1);
                assert(target <= imax(m0.context_min_size, m0.n()));
                assert(root < n) by (nonlinear_arith)
                    requires
                        root * root <= n,
                        n >= 2,
                        root >= 0,
                ;
                assert(lo <= (n - 1) / 2) by {
                    vstd::arithmetic::div_mod::lemma_div_is_ordered(
                        root as int,
                        (n - 1) as int,
                        2,
                    );
                }
                assert(k <= (n - 1) / 2);
                assert(target as int <= imax(m0.context_min_size, (m0.n() - 1) / 2));
            }
        }
        let ghost cseq = ctxv@;
        proof {
            crate::idvec::lemma_id_set_len(cseq);
        }
        let ep = Epoch { center: id, ctx: ctxv, accessed: Vec::new() };
        let ghost epv = ep@;
        self.epochs.push(ep);
        proof {
            let m1 = self@;
            assert(m1.epochs =~= m0.epochs.push(epv));
            assert(m1.items == m0.items);
            assert(epv.accessed =~= Set::<int>::empty());
            assert(epv.ctx == id_set(cseq));
            assert(0 < epv.ctx.len() <= imax(m0.context_min_size, m0.n()));
            assert forall|j: int| #[trigger] epv.ctx.contains(j) implies 0 <= j < m0.n() by {
                let w = choose|w: int| 0 <= w < cseq.len() && cseq[w] == j;
            }
            assert(epv.wf(m1.n(), m1.context_min_size));
            assert forall|e: int| 0 <= e < m1.epochs.len() implies (#[trigger] m1.epochs[e]).wf(
                m1.n(),
                m1.context_min_size,
            ) by {
                if e < m0.epochs.len() {
                    assert(m1.epochs[e] == m0.epochs[e]);
                    assert(m0.epochs[e].wf(m0.n(), m0.context_min_size));
                }
            }
            assert(m1.wf());
            assert(self.inv()) by {
                assert forall|e: int|
                    0 <= e < self.epochs@.len() implies (
                #[trigger] self.epochs@[e]).ctx@.no_duplicates()
                    && self.epochs@[e].accessed@.no_duplicates() by {
                    if e < m0.epochs.len() {
                        assert(self.epochs@[e] == old(self).epochs@[e]);
                        assert(old(self).epochs@[e].ctx@.no_duplicates());
                        assert(old(self).epochs@[e].accessed@.no_duplicates());
                    }
                }
            }
            assert forall|i: int| 0 <= i < m0.items.len() implies (#[trigger] m1.items[i]).extends(
                m0.items[i],
            ) by {}
            assert forall|e: int| 0 <= e < m0.epochs.len() implies (#[trigger] m1.epochs[e]).extends(
                m0.epochs[e],
            ) by {
                assert(m1.epochs[e] == m0.epochs[e]);
            }
            if m0.n() < m0.context_min_size {
                assert(epv.ctx == below(m0.n()));
            }
            if m0.n() >= m0.context_min_size {
                assert(epv.ctx.len() <= imax(m0.context_min_size, (m0.n() - 1) / 2));
                assert forall|j: int| #[trigger] epv.ctx.contains(j) implies neighborhood(
                    m0.items,
                    epv.ctx.insert(id as int),
                ).contains(j) by {
                    assert(id_set(cseq).contains(j));
                }
                assert forall|j: int| #[trigger] epv.ctx.contains(j) implies crate::model::reaches(
                    m0.items,
                    id as int,
                    j,
                    m0.n() as nat,
                ) by {
                    assert(id_set(cseq).contains(j));
                    assert(cseq.len() <= m0.n());
                    crate::model::lemma_reaches_mono(
                        m0.items,
                        id as int,
                        j,
                        cseq.len() as nat,
                        m0.n() as nat,
                    );
                }
            }
        }
    }

    /// The number of artifacts.
    pub fn artifact_count(&self) -> (r: usize)
        ensures
            r as int == self@.n(),
    {
        self.graph.len()
    }

    /// The number of epochs in the log.
    pub fn epoch_count(&self) -> (r: usize)
        ensures
            r as int == self@.epochs.len(),
    {
        self.epochs.len()
    }

    /// The minimum context size.
    pub fn min_context_size(&self) -> (r: usize)
        ensures
            r as int == self@.context_min_size,
    {
        self.context_min_size
    }

    /// The upper bound on the number of artifacts.
    pub fn size_limit(&self) -> (r: usize)
        ensures
            r as int == self@.max_size,
    {
        self.max_size
    }

    /// The ids adjacent to artifact `id`.
    pub fn neighbors_of(&self, id: usize) -> (r: Vec<usize>)
        requires
            self.wf(),
            (id as int) < self@.n(),
        ensures
            r@.no_duplicates(),
            id_set(r@) =~= self@.items[id as int].adj,
            r@.len() == self@.items[id as int].adj.len(),
    {
        let r = copy_ids(&self.graph[id].adj);
        proof {
            assert(id_set(r@) == self@.items[id as int].adj);
            lemma_id_set_len(r@);
        }
        r
    }

    /// The edges of the graph as canonical pairs `(i, j)` with `i < j`, in
    /// strictly increasing lexicographic order, each present exactly when the
    /// two artifacts are neighbours.
    pub fn edge_list(&self) -> (r: Vec<(usize, usize)>)
        requires
            self.wf(),
        ensures
            forall|t: int|
                0 <= t < r@.len() ==> (#[trigger] r@[t]).0 < r@[t].1 && (r@[t].1 as int)
                    < self@.n(),
            forall|a: int, b: int|
                0 <= a < b < r@.len() ==> ((#[trigger] r@[a]).0 < (#[trigger] r@[b]).0 || (r@[a].0
                    == r@[b].0 && r@[a].1 < r@[b].1)),
            forall|t: int|
                0 <= t < r@.len() ==> self@.items[(#[trigger] r@[t]).0 as int].adj.contains(
                    r@[t].1 as int,
                ),
            forall|i: int, j: int|
                0 <= i < j < self@.n() && #[trigger] self@.items[i].adj.contains(j)
                    ==> exists|t: int|
                    0 <= t < r@.len() && (#[trigger] r@[t]).0 == i && r@[t].1 == j,
    {
        let n = self.graph.len();
        let mut r: Vec<(usize, usize)> = Vec::new();
        let mut i: usize = 0;
        while i < n
            invariant
                self.wf(),
                n == self@.n(),
                i <= n,
                forall|t: int|
                    0 <= t < r@.len() ==> (#[trigger] r@[t]).0 < r@[t].1 && (r@[t].1 as int) < n,
                forall|a: int, b: int|
                    0 <= a < b < r@.len() ==> ((#[trigger] r@[a]).0 < (#[trigger] r@[b]).0 || (
                    r@[a].0 == r@[b].0 && r@[a].1 < r@[b].1)),
                forall|t: int| 0 <= t < r@.len() ==> (#[trigger] r@[t]).0 < i,
                forall|t: int|
                    0 <= t < r@.len() ==> self@.items[(#[trigger] r@[t]).0 as int].adj.contains(
                        r@[t].1 as int,
                    ),
                forall|a: int, b: int|
                    0 <= a < b < n && a < i && #[trigger] self@.items[a].adj.contains(b)
                        ==> exists|t: int|
                        0 <= t < r@.len() && (#[trigger] r@[t]).0 == a && r@[t].1 == b,
            decreases n - i,
        {
            let mut j: usize = i + 1;
            while j < n
                invariant
                    self.wf(),
                    n == self@.n(),
                    i < n,
                    i < j <= n,
                    forall|t: int|
                        0 <= t < r@.len() ==> (#[trigger] r@[t]).0 < r@[t].1 && (r@[t].1 as int)
                            < n,
                    forall|a: int, b: int|
                        0 <= a < b < r@.len() ==> ((#[trigger] r@[a]).0 < (#[trigger] r@[b]).0 || (
                        r@[a].0 == r@[b].0 && r@[a].1 < r@[b].1)),
                    forall|t: int|
                        0 <= t < r@.len() ==> ((#[trigger] r@[t]).0 < i || (r@[t].0 == i && (
                        r@[t].1 as int) < j)),
                    forall|t: int|
                        0 <= t < r@.len() ==> self@.items[(#[trigger] r@[t]).0 as int].adj.contains(
                            r@[t].1 as int,
                        ),
                    forall|a: int, b: int|
                        0 <= a < b < n && a < i && #[trigger] self@.items[a].adj.contains(b)
                            ==> exists|t: int|
                            0 <= t < r@.len() && (#[trigger] r@[t]).0 == a && r@[t].1 == b,
                    forall|b: int|
                        i < b < j && #[trigger] self@.items[i as int].adj.contains(b)
                            ==> exists|t: int|
                            0 <= t < r@.len() && (#[trigger] r@[t]).0 == i as int && r@[t].1 == b,
                decreases n - j,
            {
                let linked = crate::idvec::holds_id(&self.graph[i].adj, j);
                proof {
                    assert(id_set(self.graph@[i as int].adj@) == self@.items[i as int].adj);
                }
                if linked {
                    let ghost prev = r@;
                    r.push((i, j));
                    proof {
                        assert(r@[r@.len() - 1] == (i, j));
                        assert(forall|t: int| 0 <= t < prev.len() ==> r@[t] == prev[t]);
                        assert forall|b: int|
                            i < b < j + 1 && #[trigger] self@.items[i as int].adj.contains(
                                b,
                            ) implies exists|t: int|
                            0 <= t < r@.len() && (#[trigger] r@[t]).0 == i as int && r@[t].1
                                == b by {
                            if b < j {
                                let t0 = choose|t0: int|
                                    0 <= t0 < prev.len() && (#[trigger] prev[t0]).0 == i as int
                                        && prev[t0].1 == b;
                                assert(r@[t0].0 == i as int && r@[t0].1 == b);
                            } else {
                                assert(r@[r@.len() - 1].0 == i as int && r@[r@.len() - 1].1 == b);
                            }
                        }
                        assert forall|a: int, b: int|
                            0 <= a < b < n && a < i && #[trigger] self@.items[a].adj.contains(
                                b,
                            ) implies exists|t: int|
                            0 <= t < r@.len() && (#[trigger] r@[t]).0 == a && r@[t].1 == b by {
                            let t0 = choose|t0: int|
                                0 <= t0 < prev.len() && (#[trigger] prev[t0]).0 == a && prev[t0].1
                                    == b;
                            assert(r@[t0].0 == a && r@[t0].1 == b);
                        }
                    }
                } else {
                    proof {
                        assert(!self@.items[i as int].adj.contains(j as int));
                    }
                }
                j = j + 1;
            }
            proof {
                assert forall|a: int, b: int|
                    0 <= a < b < n && a < i + 1 && #[trigger] self@.items[a].adj.contains(
                        b,
                    ) implies exists|t: int|
                    0 <= t < r@.len() && (#[trigger] r@[t]).0 == a && r@[t].1 == b by {
                    if a == i {
                        assert(self@.items[i as int].adj.contains(b));
                    }
                }
            }
            i = i + 1;
        }
        r
    }

    /// Every id that occurs in a context or accessed set of an epoch at or
    /// after `epoch`, without duplicates. Never empty, because every context
    /// is non-empty.
    fn collect_antecedents(&self, epoch: usize) -> (ids: Vec<usize>)
        requires
            self.wf(),
            (epoch as int) < self@.epochs.len(),
        ensures
            ids@.no_duplicates(),
            forall|t: int| 0 <= t < ids@.len() ==> (#[trigger] ids@[t] as int) < self@.n(),
            id_set(ids@) =~= crate::model::antecedent_set(self@.epochs, epoch as int),
            ids@.len() >= 1,
    {
        let ghost eps = self@.epochs;
        let len = self.epochs.len();
        let mut ids: Vec<usize> = Vec::new();
        let mut e = epoch;
        while e < len
            invariant
                self.wf(),
                eps == self@.epochs,
                len == eps.len(),
                epoch <= e <= len,
                (epoch as int) < eps.len(),
                ids@.no_duplicates(),
                forall|t: int| 0 <= t < ids@.len() ==> (#[trigger] ids@[t] as int) < self@.n(),
                id_set(ids@) =~= crate::model::antecedent_set(eps.take(e as int), epoch as int),
            decreases len - e,
        {
            let ghost base = crate::model::antecedent_set(eps.take(e as int), epoch as int);
            let ghost cv = self.epochs@[e as int].ctx@;
            let ghost acv = self.epochs@[e as int].accessed@;
            proof {
                assert(eps[e as int] == self.epochs@[e as int]@);
                assert(eps[e as int].wf(self@.n(), self@.context_min_size));
            }
            let m = self.epochs[e].ctx.len();
            let mut j: usize = 0;
            while j < m
                invariant
                    self.wf(),
                    eps == self@.epochs,
                    epoch <= e < eps.len(),
                    cv == self.epochs@[e as int].ctx@,
                    acv == self.epochs@[e as int].accessed@,
                    m == cv.len(),
                    j <= m,
                    ids@.no_duplicates(),
                    forall|t: int| 0 <= t < ids@.len() ==> (#[trigger] ids@[t] as int) < self@.n(),
                    id_set(ids@) =~= base.union(id_set(cv.take(j as int))),
                    base == crate::model::antecedent_set(eps.take(e as int), epoch as int),
                decreases m - j,
            {
                let x = self.epochs[e].ctx[j];
                push_if_absent(&mut ids, x);
                proof {
                    assert(cv.take(j + 1) =~= cv.take(j as int).push(x));
                    lemma_id_set_push(cv.take(j as int), x);
                    assert((x as int) < self@.n()) by {
                        assert(eps[e as int].ctx.contains(x as int)) by {
                            assert(cv[j as int] == x);
                        }
                    }
                    assert(id_set(ids@) =~= base.union(id_set(cv.take(j + 1))));
                }
                j = j + 1;
            }
            proof {
                assert(cv.take(m as int) =~= cv);
            }
            let ma = self.epochs[e].accessed.len();
            let mut j2: usize = 0;
            while j2 < ma
                invariant
                    self.wf(),
                    eps == self@.epochs,
                    epoch <= e < eps.len(),
                    cv == self.epochs@[e as int].ctx@,
                    acv == self.epochs@[e as int].accessed@,
                    ma == acv.len(),
                    j2 <= ma,
                    ids@.no_duplicates(),
                    forall|t: int| 0 <= t < ids@.len() ==> (#[trigger] ids@[t] as int) < self@.n(),
                    id_set(ids@) =~= base.union(id_set(cv)).union(id_set(acv.take(j2 as int))),
                    base == crate::model::antecedent_set(eps.take(e as int), epoch as int),
                decreases ma - j2,
            {
                let x = self.epochs[e].accessed[j2];
                push_if_absent(&mut ids, x);
                proof {
                    assert(acv.take(j2 + 1) =~= acv.take(j2 as int).push(x));
                    lemma_id_set_push(acv.take(j2 as int), x);
                    assert((x as int) < self@.n()) by {
                        assert(eps[e as int].accessed.contains(x as int)) by {
                            assert(acv[j2 as int] == x);
                        }
                    }
                    assert(id_set(ids@) =~= base.union(id_set(cv)).union(id_set(acv.take(j2 + 1))));
                }
                j2 = j2 + 1;
            }
            proof {
                assert(acv.take(ma as int) =~= acv);
                assert(eps.take(e + 1) =~= eps.take(e as int).push(eps[e as int]));
                crate::model::lemma_antecedent_set_push(eps.take(e as int), eps[e as int], epoch as int);
                assert(eps[e as int].ctx == id_set(cv));
                assert(eps[e as int].accessed == id_set(acv));
                assert(id_set(ids@) =~= crate::model::antecedent_set(eps.take(e + 1), epoch as int));
            }
            e = e + 1;
        }
        proof {
            assert(eps.take(len as int) =~= eps);
            let lc = eps.last().ctx;
            assert(eps[len - 1].wf(self@.n(), self@.context_min_size));
            assert(lc.len() > 0 && lc.finite());
            assert(lc.contains(lc.choose()));
            crate::model::lemma_ctx_in_antecedent_set(eps, epoch as int, len - 1);
            assert(id_set(ids@).contains(lc.choose()));
            assert(ids@.len() >= 1) by {
                if ids@.len() == 0 {
                    assert(!id_set(ids@).contains(lc.choose()));
                }
            }
        }
        ids
    }

    /// Chooses the neighbour set for a new artifact among the antecedent
    /// candidates `ids`: one independent popularity-weighted draw for each
    /// candidate, and, if none connects, one draw over the cumulative weights
    /// so that at least one edge always results.
    fn choose_edges(&self, ids: &Vec<usize>, epoch: usize) -> (edges: Vec<usize>)
        requires
            self.wf(),
            ids@.no_duplicates(),
            ids@.len() >= 1,
            forall|t: int| 0 <= t < ids@.len() ==> (#[trigger] ids@[t] as int) < self@.n(),
        ensures
            edges@.no_duplicates(),
            1 <= edges@.len(),
            id_set(edges@).subset_of(id_set(ids@)),
            forall|t: int| 0 <= t < edges@.len() ==> (#[trigger] edges@[t] as int) < self@.n(),
    {
        let n_ids = ids.len();
        // weight each antecedent by one more than its recent accesses
        let mut ws: Vec<u128> = Vec::new();
        let mut total: u128 = 0;
        let mut i: usize = 0;
        while i < n_ids
            invariant
                self.wf(),
                n_ids == ids@.len(),
                i <= n_ids,
                forall|t: int| 0 <= t < ids@.len() ==> (#[trigger] ids@[t] as int) < self@.n(),
                ws@.len() == i,
                forall|t: int| 0 <= t < ws@.len() ==> #[trigger] ws@[t] >= 1,
                total == tail_sum(ws@, 0),
                total >= i,
                total <= i * 0x1_0000_0000_0000_0000,
            decreases n_ids - i,
        {
            let c = self.count_of(ids[i], epoch);
            let w: u128 = 1 + c as u128;
            proof {
                lemma_tail_sum_push(ws@, w, 0);
            }
            assert(total + w <= (i + 1) * 0x1_0000_0000_0000_0000);
            ws.push(w);
            total = total + w;
            i = i + 1;
        }
        // stage one: an independent Bernoulli draw for each antecedent
        let mut edges: Vec<usize> = Vec::new();
        let mut i2: usize = 0;
        while i2 < n_ids
            invariant
                self.wf(),
                n_ids == ids@.len(),
                ws@.len() == n_ids,
                i2 <= n_ids,
                total >= n_ids,
                n_ids >= 1,
                ids@.no_duplicates(),
                forall|t: int| 0 <= t < ids@.len() ==> (#[trigger] ids@[t] as int) < self@.n(),
                edges@.no_duplicates(),
                id_set(edges@).subset_of(id_set(ids@.take(i2 as int))),
                forall|t: int| 0 <= t < edges@.len() ==> (#[trigger] edges@[t] as int) < self@.n(),
            decreases n_ids - i2,
        {
            let v = crate::rng::rand_below(total);
            if v < ws[i2] {
                let x = ids[i2];
                let ghost ep = edges@;
                proof {
                    assert(!id_set(ids@.take(i2 as int)).contains(x as int)) by {
                        if id_set(ids@.take(i2 as int)).contains(x as int) {
                            let u = choose|u: int|
                                0 <= u < i2 && ids@.take(i2 as int)[u] == x as int;
                            assert(ids@[u] == ids@[i2 as int]);
                        }
                    }
                    assert forall|t: int| 0 <= t < ep.len() implies ep[t] != x by {
                        assert(id_set(edges@).contains(ep[t] as int)) by {
                            assert(edges@[t] == ep[t]);
                        }
                    }
                }
                edges.push(x);
                proof {
                    assert(edges@.drop_last() =~= ep);
                    lemma_id_set_push(ep, x);
                }
            }
            proof {
                assert(ids@.take(i2 + 1) =~= ids@.take(i2 as int).push(ids@[i2 as int]));
                lemma_id_set_push(ids@.take(i2 as int), ids@[i2 as int]);
                assert(id_set(edges@).subset_of(id_set(ids@.take(i2 + 1))));
            }
            i2 = i2 + 1;
        }
        proof {
            assert(ids@.take(n_ids as int) =~= ids@);
        }
        if edges.len() == 0 {
            // stage two: a single draw over the cumulative weights connects
            // the first antecedent whose running total exceeds it
            let mut rem = crate::rng::rand_below(total);
            let mut i3: usize = 0;
            while i3 < n_ids
                invariant_except_break
                    edges@.len() == 0,
                    rem < tail_sum(ws@, i3 as int),
                invariant
                    self.wf(),
                    n_ids == ids@.len(),
                    ws@.len() == n_ids,
                    i3 <= n_ids,
                    ids@.no_duplicates(),
                    forall|t: int| 0 <= t < ids@.len() ==> (#[trigger] ids@[t] as int) < self@.n(),
                    forall|t: int| 0 <= t < ws@.len() ==> #[trigger] ws@[t] >= 1,
                ensures
                    edges@.len() == 1,
                    id_set(edges@).subset_of(id_set(ids@)),
                    forall|t: int| 0 <= t < edges@.len() ==> (#[trigger] edges@[t] as int) < self@
                        .n(),
                    edges@.no_duplicates(),
                decreases n_ids - i3,
            {
                if rem < ws[i3] {
                    let x = ids[i3];
                    edges.push(x);
                    proof {
                        assert(edges@.len() == 1);
                        assert(edges@[0] == x);
                        assert forall|j: int| id_set(edges@).contains(j) implies id_set(
                            ids@,
                        ).contains(j) by {
                            assert(ids@[i3 as int] == x);
                        }
                    }
                    break;
                }
                rem = rem - ws[i3];
                proof {
                    assert(tail_sum(ws@, i3 as int) == ws@[i3 as int] + tail_sum(ws@, i3 + 1));
                }
                i3 = i3 + 1;
            }
        }
        edges
    }

    /// Adds a new artifact carrying `data` for mechanism `mech`: its edges are
    /// chosen by popularity-biased draws over the antecedent candidates at or
    /// after `epoch`, mirrored on both ends, and the network is then oriented
    /// on the new artifact, which appends one epoch. Fails if and only if the
    /// network is full.
    pub fn grow(&mut self, mech: String, data: String, epoch: usize) -> (r: Result<
        usize,
        GrowError,
    >)
        requires
            old(self).wf(),
            (epoch as int) < old(self)@.epochs.len(),
        ensures
            final(self).wf(),
            final(self)@.extends(old(self)@),
            old(self)@.n() >= old(self)@.max_size ==> r == Result::<usize, GrowError>::Err(
                GrowError::Full,
            ) && final(self)@ == old(self)@,
            old(self)@.n() < old(self)@.max_size ==> (r matches Ok(v) && v as int == old(self)@.n()
                && crate::model::grow_post(
                old(self)@,
                final(self)@,
                mech@,
                data@,
                epoch as int,
            )),
    {
        let ghost m0 = self@;
        let n = self.graph.len();
        if n >= self.max_size {
            proof {
                crate::model::lemma_extends_refl(m0);
            }
            return Err(GrowError::Full);
        }
        let new_id = n;
        let ids = self.collect_antecedents(epoch);
        let edges = self.choose_edges(&ids, epoch);
        // mirror the new edges on their far ends
        let n_edges = edges.len();
        let mut k: usize = 0;
        while k < n_edges
            invariant
                m0 == old(self)@,
                m0.wf(),
                n == m0.items.len(),
                new_id == n,
                n < m0.max_size,
                n_edges == edges@.len(),
                k <= n_edges,
                edges@.no_duplicates(),
                forall|t: int| 0 <= t < edges@.len() ==> (#[trigger] edges@[t] as int) < n,
                self.graph@.len() == n,
                self.epochs@ == old(self).epochs@,
                self.context_min_size == old(self).context_min_size,
                self.max_size == old(self).max_size,
                forall|i: int|
                    0 <= i < n ==> (#[trigger] self.graph@[i]).id == i
                        && self.graph@[i].adj@.no_duplicates(),
                forall|i: int|
                    0 <= i < n && !id_set(edges@.take(k as int)).contains(i)
                        ==> #[trigger] self@.items[i] == m0.items[i],
                forall|i: int|
                    0 <= i < n && id_set(edges@.take(k as int)).contains(i)
                        ==> #[trigger] self@.items[i] == (ItemModel {
                        adj: m0.items[i].adj.insert(new_id as int),
                        ..m0.items[i]
                    }),
            decreases n_edges - k,
        {
            let oid = edges[k];
            let ghost gpre = self.graph@;
            let ghost items_pre = self@.items;
            proof {
                assert(!id_set(edges@.take(k as int)).contains(oid as int)) by {
                    if id_set(edges@.take(k as int)).contains(oid as int) {
                        let u = choose|u: int|
                            0 <= u < k && edges@.take(k as int)[u] == oid as int;
                        assert(edges@[u] == edges@[k as int]);
                    }
                }
                assert(items_pre[oid as int] == m0.items[oid as int]);
                assert(m0.items[oid as int].wf(oid as int, n as int));
                assert(!m0.items[oid as int].adj.contains(new_id as int));
                assert(id_set(gpre[oid as int].adj@) == items_pre[oid as int].adj);
                assert forall|t: int|
                    0 <= t < gpre[oid as int].adj@.len() implies gpre[oid as int].adj@[t]
                    != new_id by {
                    assert(id_set(gpre[oid as int].adj@).contains(
                        gpre[oid as int].adj@[t] as int,
                    )) by {
                        assert(gpre[oid as int].adj@[t] == gpre[oid as int].adj@[t]);
                    }
                }
            }
            self.graph[oid].adj.push(new_id);
            proof {
                let av = gpre[oid as int].adj@;
                assert(self.graph@ =~= gpre.update(oid as int, self.graph@[oid as int]));
                assert(self.graph@[oid as int].adj@ =~= av.push(new_id));
                assert(self.graph@[oid as int].adj@.drop_last() =~= av);
                lemma_id_set_push(av, new_id);
                assert(self@.items =~= items_pre.update(oid as int, self@.items[oid as int]));
                assert(edges@.take(k + 1) =~= edges@.take(k as int).push(oid));
                lemma_id_set_push(edges@.take(k as int), oid);
                assert(self@.items[oid as int] == (ItemModel {
                    adj: m0.items[oid as int].adj.insert(new_id as int),
                    ..m0.items[oid as int]
                })) by {
                    assert(self@.items[oid as int] =~~= (ItemModel {
                        adj: m0.items[oid as int].adj.insert(new_id as int),
                        ..m0.items[oid as int]
                    }));
                }
                assert forall|i: int|
                    0 <= i < n && !id_set(edges@.take(k + 1)).contains(
                        i,
                    ) implies #[trigger] self@.items[i] == m0.items[i] by {
                    assert(i != oid);
                    assert(self@.items[i] == items_pre[i]);
                    assert(!id_set(edges@.take(k as int)).contains(i));
                }
                assert forall|i: int|
                    0 <= i < n && id_set(edges@.take(k + 1)).contains(
                        i,
                    ) implies #[trigger] self@.items[i] == (ItemModel {
                    adj: m0.items[i].adj.insert(new_id as int),
                    ..m0.items[i]
                }) by {
                    if i != oid {
                        assert(self@.items[i] == items_pre[i]);
                        assert(id_set(edges@.take(k as int)).contains(i));
                    }
                }
            }
            k = k + 1;
        }
        proof {
            assert(edges@.take(n_edges as int) =~= edges@);
        }
        let ghost eseq = edges@;
        let ghost pre_items = self@.items;
        let item = Item::new(mech, edges, data, new_id);
        self.graph.push(item);
        proof {
            crate::idvec::lemma_id_set_len(eseq);
            let mid = self@;
            assert(mid.items =~= pre_items.push(self.graph@[n as int]@));
            assert(mid.items.len() == n + 1);
            let newit = mid.items[n as int];
            assert(newit.adj == id_set(eseq));
            assert(newit.counts =~= Seq::<int>::empty());
            assert(newit.id == new_id);
            assert forall|i: int|
                0 <= i < n && !id_set(eseq).contains(i) implies #[trigger] mid.items[i]
                == m0.items[i] by {
                assert(mid.items[i] == pre_items[i]);
            }
            assert forall|i: int|
                0 <= i < n && id_set(eseq).contains(i) implies #[trigger] mid.items[i]
                == (ItemModel { adj: m0.items[i].adj.insert(new_id as int), ..m0.items[i] }) by {
                assert(mid.items[i] == pre_items[i]);
            }
            lemma_grow_mid_wf(m0, mid, eseq, new_id as int);
            assert(self.inv()) by {
                assert forall|e: int|
                    0 <= e < self.epochs@.len() implies (
                #[trigger] self.epochs@[e]).ctx@.no_duplicates()
                    && self.epochs@[e].accessed@.no_duplicates() by {
                    assert(self.epochs@[e] == old(self).epochs@[e]);
                    assert(old(self).epochs@[e].ctx@.no_duplicates());
                    assert(old(self).epochs@[e].accessed@.no_duplicates());
                }
                assert forall|i: int|
                    0 <= i < self.graph@.len() implies (#[trigger] self.graph@[i]).id == i
                    && self.graph@[i].adj@.no_duplicates() by {}
            }
        }
        let ghost mid = self@;
        self.orient(epoch, new_id);
        proof {
            let m1 = self@;
            assert(crate::model::orient_post(mid, m1, epoch as int, new_id as int));
            assert(m1.items == mid.items);
            crate::model::lemma_extends_trans(m1, mid, m0);
            let it = m1.items[new_id as int];
            assert(it.adj.subset_of(crate::model::antecedent_set(m0.epochs, epoch as int))) by {
                assert(it.adj == id_set(eseq));
                assert(id_set(eseq).subset_of(id_set(ids@)));
                assert(id_set(ids@) =~= crate::model::antecedent_set(m0.epochs, epoch as int));
            }
            assert(it.adj.len() >= 1) by {
                crate::idvec::lemma_id_set_len(eseq);
            }
            assert forall|j: int| #[trigger] it.adj.contains(j) implies 0 <= j < m0.n() by {
                let w = choose|w: int| 0 <= w < eseq.len() && eseq[w] == j;
            }
            assert forall|i: int|
                0 <= i < m0.n() implies (#[trigger] m1.items[i]).mech == m0.items[i].mech
                && m1.items[i].data == m0.items[i].data && m1.items[i].counts == m0.items[i].counts
                && m1.items[i].adj == (if it.adj.contains(i) {
                m0.items[i].adj.insert(new_id as int)
            } else {
                m0.items[i].adj
            }) by {
                if id_set(eseq).contains(i) {
                    assert(mid.items[i] == (ItemModel {
                        adj: m0.items[i].adj.insert(new_id as int),
                        ..m0.items[i]
                    }));
                } else {
                    assert(mid.items[i] == m0.items[i]);
                }
            }
            assert forall|e: int| 0 <= e < m0.epochs.len() implies #[trigger] m1.epochs[e]
                == m0.epochs[e] by {
                assert(m1.epochs[e] == mid.epochs[e]);
            }
            assert(crate::model::grow_post(m0, m1, mech@, data@, epoch as int));
        }
        Ok(new_id)
    }
}

/// Sum of the weights from position `from` on.
spec fn tail_sum(s: Seq<u128>, from: int) -> int
    decreases s.len() - from,
{
    if 0 <= from < s.len() {
        s[from] + tail_sum(s, from + 1)
    } else {
        0
    }
}

proof fn lemma_tail_sum_push(s: Seq<u128>, x: u128, from: int)
    requires
        0 <= from <= s.len(),
    ensures
        tail_sum(s.push(x), from) == tail_sum(s, from) + x,
    decreases s.len() - from,
{
    let t = s.push(x);
    if from < s.len() {
        assert(t[from] == s[from]);
        lemma_tail_sum_push(s, x, from + 1);
    } else {
        assert(t[from] == x);
        assert(tail_sum(t, from + 1) == 0);
        assert(tail_sum(s, from) == 0);
    }
}

/// The state after the new artifact and its mirrored edges are in place, but
/// before the implicit orient, is well-formed and extends the old state.
proof fn lemma_grow_mid_wf(m0: NetworkModel, mid: NetworkModel, eseq: Seq<usize>, new_id: int)
    requires
        m0.wf(),
        new_id == m0.n(),
        eseq.no_duplicates(),
        eseq.len() >= 1,
        forall|t: int| 0 <= t < eseq.len() ==> (#[trigger] eseq[t] as int) < new_id,
        mid.context_min_size == m0.context_min_size,
        mid.max_size == m0.max_size,
        mid.epochs == m0.epochs,
        mid.items.len() == m0.n() + 1,
        mid.items[new_id].id == new_id,
        mid.items[new_id].adj == id_set(eseq),
        mid.items[new_id].counts == Seq::<int>::empty(),
        forall|i: int|
            0 <= i < new_id && !id_set(eseq).contains(i) ==> #[trigger] mid.items[i]
                == m0.items[i],
        forall|i: int|
            0 <= i < new_id && id_set(eseq).contains(i) ==> #[trigger] mid.items[i]
                == (ItemModel { adj: m0.items[i].adj.insert(new_id), ..m0.items[i] }),
    ensures
        mid.wf(),
        mid.extends(m0),
{
    let nm = mid.n();
    let es = id_set(eseq);
    crate::idvec::lemma_id_set_len(eseq);
    assert forall|j: int| #[trigger] es.contains(j) implies 0 <= j < new_id by {
        let w = choose|w: int| 0 <= w < eseq.len() && eseq[w] == j;
    }
    assert(!es.contains(new_id));
    assert forall|i: int| 0 <= i < nm implies (#[trigger] mid.items[i]).wf(i, nm) by {
        if i == new_id {
            assert(crate::model::recent_total(mid.items[i].counts, 0) == 0);
        } else {
            assert(m0.items[i].wf(i, m0.n()));
            if es.contains(i) {
                assert forall|j: int| #[trigger]
                    mid.items[i].adj.contains(j) implies 0 <= j < nm by {
                    if j != new_id {
                        assert(m0.items[i].adj.contains(j));
                    }
                }
                assert(!mid.items[i].adj.contains(i));
            }
        }
    }
    assert forall|i: int, j: int|
        0 <= i < nm && #[trigger] mid.items[i].adj.contains(j) implies mid.items[j].adj.contains(
        i,
    ) by {
        if i == new_id {
            assert(es.contains(j));
            assert(0 <= j < new_id);
            assert(mid.items[j].adj == m0.items[j].adj.insert(new_id));
        } else {
            assert(m0.items[i].wf(i, m0.n()));
            if j == new_id {
                assert(es.contains(i)) by {
                    if !es.contains(i) {
                        assert(mid.items[i] == m0.items[i]);
                        assert(m0.items[i].adj.contains(new_id));
                        assert(new_id < m0.n());
                    }
                }
            } else {
                assert(m0.items[i].adj.contains(j));
                assert(m0.items[j].adj.contains(i));
                if es.contains(j) {
                    assert(mid.items[j].adj == m0.items[j].adj.insert(new_id));
                } else {
                    assert(mid.items[j] == m0.items[j]);
                }
            }
        }
    }
    assert forall|i: int| 0 <= i < nm && nm >= 2 implies (#[trigger] mid.items[i].adj).len()
        >= 1 by {
        if i == new_id {
            assert(mid.items[i].adj.len() == eseq.len());
        } else if es.contains(i) {
            assert(mid.items[i].adj.contains(new_id));
            if mid.items[i].adj.len() == 0 {
                mid.items[i].adj.lemma_len0_is_empty();
            }
        } else {
            if m0.n() >= 2 {
                assert(m0.items[i].adj.len() >= 1);
            } else {
                assert(m0.n() == 1 && i == 0);
                assert((eseq[0] as int) < 1);
                assert(es.contains(0)) by {
                    assert(eseq[0] as int == 0);
                }
            }
        }
    }
    assert forall|e: int| 0 <= e < mid.epochs.len() implies (#[trigger] mid.epochs[e]).wf(
        nm,
        mid.context_min_size,
    ) by {
        assert(m0.epochs[e].wf(m0.n(), m0.context_min_size));
        assert(mid.epochs[e] == m0.epochs[e]);
        assert forall|j: int| #[trigger] mid.epochs[e].ctx.contains(j) implies 0 <= j < nm by {
            assert(m0.epochs[e].ctx.contains(j));
        }
        assert forall|j: int| #[trigger] mid.epochs[e].accessed.contains(j) implies 0 <= j
            < nm by {
            assert(m0.epochs[e].accessed.contains(j));
        }
    }
    assert(mid.wf());
    assert forall|i: int| 0 <= i < m0.items.len() implies (#[trigger] mid.items[i]).extends(
        m0.items[i],
    ) by {
        if es.contains(i) {
            assert(mid.items[i].adj == m0.items[i].adj.insert(new_id));
        } else {
            assert(mid.items[i] == m0.items[i]);
        }
    }
    assert forall|e: int| 0 <= e < m0.epochs.len() implies (#[trigger] mid.epochs[e]).extends(
        m0.epochs[e],
    ) by {
        assert(mid.epochs[e] == m0.epochs[e]);
    }
}

/// The integer square root: the largest `r` with `r * r <= n`.
fn isqrt(n: usize) -> (r: usize)
    ensures
        r * r <= n,
        (r + 1) * (r + 1) > n,
{
    let mut r: usize = 0;
    loop
        invariant
            r * r <= n,
            r <= n,
            r <= 0x1_0000_0000,
        ensures
            r * r <= n,
            (r + 1) * (r + 1) > n,
        decreases n - r,
    {
        let r1 = r as u128 + 1;
        proof {
            assert(r1 * r1 <= 0x1_0000_0002_0000_0001) by (nonlinear_arith)
                requires
                    0 <= r1 <= 0x1_0000_0001,
            ;
        }
        let next = r1 * r1;
        if next > n as u128 {
            break;
        }
        proof {
            assert(r + 1 <= (r + 1) * (r + 1)) by (nonlinear_arith)
                requires
                    r >= 0,
            ;
            assert((r + 1) * (r + 1) <= n);
            assert(r + 1 <= 0x1_0000_0000) by (nonlinear_arith)
                requires
                    (r + 1) * (r + 1) <= 0xffff_ffff_ffff_ffff,
                    r >= 0,
            ;
        }
        r = r + 1;
    }
    r
}

/// What construction from an embryo guarantees: ids in embryo order, the
/// complete graph over the embryo, one initial epoch covering everything, and
/// the raised minimum context size.
pub open spec fn new_post(m: NetworkModel, embryo: Seq<(Seq<char>, Seq<char>)>, max_size: int) -> bool {
    let n = embryo.len() as int;
    &&& m.items.len() == n
    &&& forall|i: int|
        0 <= i < n ==> {
            let it = #[trigger] m.items[i];
            &&& it.id == i
            &&& it.mech == embryo[i].0
            &&& it.data == embryo[i].1
            &&& it.counts == Seq::<int>::empty()
            &&& it.adj == below(n).remove(i)
        }
    &&& m.epochs.len() == 1
    &&& m.epochs[0].center == 0
    &&& m.epochs[0].ctx == below(n)
    &&& m.epochs[0].accessed == Set::<int>::empty()
    &&& m.context_min_size == imax(CTX_MIN_SIZE as int, n)
    &&& m.max_size == max_size
}

/// One admission step of the context walk: the newly admitted ids all
/// neighbour the selected artifact, which is the center or an earlier member,
/// so every member stays adjacent to the center or to another member and
/// reachable from the center within as many hops as there are members.
proof fn lemma_admission_step(
    arts: Seq<ItemModel>,
    cprev: Seq<usize>,
    cnew: Seq<usize>,
    w: Seq<usize>,
    selected: usize,
    center: usize,
)
    requires
        cnew == cprev + w,
        forall|j: int| #[trigger]
            id_set(cprev).contains(j) ==> neighborhood(
                arts,
                id_set(cprev).insert(center as int),
            ).contains(j),
        forall|j: int| #[trigger]
            id_set(cprev).contains(j) ==> crate::model::reaches(
                arts,
                center as int,
                j,
                cprev.len() as nat,
            ),
        forall|j: int| #[trigger]
            id_set(w).contains(j) ==> adj_of(arts, selected as int).contains(j),
        (selected as int) < arts.len(),
        cprev.len() == 0 ==> selected == center,
        cprev.len() > 0 ==> id_set(cprev).contains(selected as int),
    ensures
        forall|j: int| #[trigger]
            id_set(cnew).contains(j) ==> neighborhood(
                arts,
                id_set(cnew).insert(center as int),
            ).contains(j),
        forall|j: int| #[trigger]
            id_set(cnew).contains(j) ==> crate::model::reaches(
                arts,
                center as int,
                j,
                cnew.len() as nat,
            ),
{
    crate::idvec::lemma_id_set_concat(cprev, w);
    assert(crate::model::reaches(arts, center as int, selected as int, cprev.len() as nat));
    assert forall|j: int| #[trigger] id_set(cnew).contains(j) implies neighborhood(
        arts,
        id_set(cnew).insert(center as int),
    ).contains(j) && crate::model::reaches(arts, center as int, j, cnew.len() as nat) by {
        if id_set(cprev).contains(j) {
            assert(id_set(cprev).insert(center as int).subset_of(
                id_set(cnew).insert(center as int),
            ));
            crate::model::lemma_neighborhood_mono(
                arts,
                id_set(cprev).insert(center as int),
                id_set(cnew).insert(center as int),
            );
            crate::model::lemma_reaches_mono(
                arts,
                center as int,
                j,
                cprev.len() as nat,
                cnew.len() as nat,
            );
        } else {
            assert(id_set(w).contains(j));
            let sel = selected as int;
            assert(arts[sel].adj.contains(j));
            assert(id_set(cnew).insert(center as int).contains(sel)) by {
                if cprev.len() == 0 {
                    assert(sel == center as int);
                } else {
                    assert(id_set(cnew).contains(sel));
                }
            }
            crate::model::lemma_reaches_step(arts, center as int, sel, j, cprev.len() as nat);
            assert(w.len() >= 1) by {
                let t = choose|t: int| 0 <= t < w.len() && w[t] == j;
            }
            crate::model::lemma_reaches_mono(
                arts,
                center as int,
                j,
                (cprev.len() + 1) as nat,
                cnew.len() as nat,
            );
        }
    }
}

/// A handle valid for a network stays valid for every extension of it.
pub proof fn lemma_valid_for_extends(c: Context, m: NetworkModel, m2: NetworkModel)
    requires
        c.valid_for(m),
        m2.extends(m),
    ensures
        c.valid_for(m2),
{
}

/// A copy of a vector of ids.
fn copy_ids(v: &Vec<usize>) -> (r: Vec<usize>)
    ensures
        r@ == v@,
{
    let n = v.len();
    let mut r: Vec<usize> = Vec::new();
    let mut i: usize = 0;
    while i < n
        invariant
            n == v@.len(),
            i <= n,
            r@ == v@.take(i as int),
        decreases n - i,
    {
        r.push(v[i]);
        assert(r@ =~= v@.take(i + 1));
        i = i + 1;
    }
    assert(v@.take(n as int) =~= v@);
    r
}

/// The concatenation of two vectors of ids.
fn concat_ids(a: &Vec<usize>, b: &Vec<usize>) -> (r: Vec<usize>)
    ensures
        r@ == a@ + b@,
{
    let mut r = copy_ids(a);
    let n = b.len();
    let mut i: usize = 0;
    while i < n
        invariant
            n == b@.len(),
            i <= n,
            r@ == a@ + b@.take(i as int),
        decreases n - i,
    {
        r.push(b[i]);
        assert(r@ =~= a@ + b@.take(i + 1));
        i = i + 1;
    }
    assert(a@ + b@.take(n as int) =~= a@ + b@);
    r
}

/// A snapshot view of the network handed to a mechanism: the items visible
/// now, their one-hop frontier, the epoch the handle was minted at, and the
/// epoch it currently stands for.
pub struct Context {
    /// Name of the mechanism using this context.
    pub mech: String,
    /// Ids of the artifacts in the immediate context.
    pub items: Vec<usize>,
    /// Ids one hop outside the immediate context, disjoint from `items`.
    pub frontier: Vec<usize>,
    /// The epoch at which this handle was minted; later growth uses it as the
    /// horizon for antecedent computation.
    pub initial_epoch: usize,
    /// The epoch this handle currently stands for.
    pub current_epoch: usize,
}

impl Context {
    /// The handle is consistent with the network: ids are in range and free of
    /// duplicates, the frontier is disjoint from the items, and both epoch
    /// fields lie within the epoch log.
    pub open spec fn valid_for(self, m: NetworkModel) -> bool {
        &&& self.items@.no_duplicates()
        &&& forall|k: int|
            0 <= k < self.items@.len() ==> (#[trigger] self.items@[k] as int) < m.items.len()
        &&& self.frontier@.no_duplicates()
        &&& forall|k: int|
            0 <= k < self.frontier@.len() ==> (#[trigger] self.frontier@[k] as int) < m.items.len()
        &&& id_set(self.frontier@).disjoint(id_set(self.items@))
        &&& (self.initial_epoch as int) < m.epochs.len()
        &&& (self.current_epoch as int) < m.epochs.len()
    }

    /// Records `count` accesses to artifact `id` at this handle's current
    /// epoch.
    pub fn add_item_count(&self, net: &mut Network, id: usize, count: u64)
        requires
            old(net).wf(),
            self.valid_for(old(net)@),
            (id as int) < old(net)@.n(),
            recent_total(old(net)@.items[id as int].counts, 0) + count <= u64::MAX,
        ensures
            final(net).wf(),
            final(net)@ == spec_record_access(
                old(net)@,
                self.current_epoch as int,
                id as int,
                count as int,
            ),
            final(net)@.extends(old(net)@),
    {
        net.item_count(self.current_epoch, id, count)
    }

    /// The `(id, mechanism name, payload)` triples of the items in this
    /// context.
    pub fn get(&self, net: &Network) -> (r: Vec<(usize, String, String)>)
        requires
            net.wf(),
            self.valid_for(net@),
        ensures
            r@.len() == self.items@.len(),
            forall|t: int|
                0 <= t < r@.len() ==> {
                    let e = #[trigger] r@[t];
                    &&& e.0 == self.items@[t]
                    &&& e.1@ == net@.items[self.items@[t] as int].mech
                    &&& e.2@ == net@.items[self.items@[t] as int].data
                },
    {
        net.ids_to_contents(&self.items)
    }

    /// The `(id, mechanism name, payload)` triples of the items in this
    /// context followed by those of its frontier.
    pub fn explore(&self, net: &Network) -> (r: Vec<(usize, String, String)>)
        requires
            net.wf(),
            self.valid_for(net@),
        ensures
            r@.len() == self.items@.len() + self.frontier@.len(),
            forall|t: int|
                0 <= t < r@.len() ==> {
                    let e = #[trigger] r@[t];
                    &&& e.0 == (self.items@ + self.frontier@)[t]
                    &&& e.1@ == net@.items[(self.items@ + self.frontier@)[t] as int].mech
                    &&& e.2@ == net@.items[(self.items@ + self.frontier@)[t] as int].data
                },
    {
        let both = concat_ids(&self.items, &self.frontier);
        assert forall|k: int| 0 <= k < both@.len() implies (#[trigger] both@[k] as int)
            < net@.n() by {
            if k < self.items@.len() {
                assert(both@[k] == self.items@[k]);
            } else {
                assert(both@[k] == self.frontier@[k - self.items@.len()]);
            }
        }
        net.ids_to_contents(&both)
    }

    /// Appends a new epoch centered on `id`, with this handle's minting epoch
    /// as the popularity horizon.
    pub fn orient(&self, net: &mut Network, id: usize)
        requires
            old(net).wf(),
            self.valid_for(old(net)@),
            (id as int) < old(net)@.n(),
        ensures
            final(net).wf(),
            crate::model::orient_post(old(net)@, final(net)@, self.initial_epoch as int, id as int),
    {
        net.orient(self.initial_epoch, id)
    }

    /// Adds a new artifact for the given mechanism, with this handle's
    /// minting epoch as the antecedent horizon.
    pub fn grow_for_mech(&self, net: &mut Network, mech: String, data: String) -> (r: Result<
        usize,
        GrowError,
    >)
        requires
            old(net).wf(),
            self.valid_for(old(net)@),
        ensures
            final(net).wf(),
            final(net)@.extends(old(net)@),
            old(net)@.n() >= old(net)@.max_size ==> r == Result::<usize, GrowError>::Err(
                GrowError::Full,
            ) && final(net)@ == old(net)@,
            old(net)@.n() < old(net)@.max_size ==> (r matches Ok(v) && v as int == old(net)@.n()
                && crate::model::grow_post(
                old(net)@,
                final(net)@,
                mech@,
                data@,
                self.initial_epoch as int,
            )),
    {
        net.grow(mech, data, self.initial_epoch)
    }

    /// Adds a new artifact for this handle's own mechanism.
    pub fn grow(&self, net: &mut Network, data: String) -> (r: Result<usize, GrowError>)
        requires
            old(net).wf(),
            self.valid_for(old(net)@),
        ensures
            final(net).wf(),
            final(net)@.extends(old(net)@),
            old(net)@.n() >= old(net)@.max_size ==> r == Result::<usize, GrowError>::Err(
                GrowError::Full,
            ) && final(net)@ == old(net)@,
            old(net)@.n() < old(net)@.max_size ==> (r matches Ok(v) && v as int == old(net)@.n()
                && crate::model::grow_post(
                old(net)@,
                final(net)@,
                self.mech@,
                data@,
                self.initial_epoch as int,
            )),
    {
        let tag = self.mech.clone();
        self.grow_for_mech(net, tag, data)
    }

    /// A fresh handle for the latest epoch that keeps this handle's
    /// `initial_epoch` as its antecedent horizon.
    pub fn update(&self, net: &Network) -> (r: Context)
        requires
            net.wf(),
            self.valid_for(net@),
        ensures
            r.valid_for(net@),
            r.initial_epoch == self.initial_epoch,
            r.mech@ == self.mech@,
            r.items@.no_duplicates(),
            id_set(r.items@) =~= net@.epochs.last().ctx,
            id_set(r.frontier@) =~= frontier_set(net@.items, net@.epochs.last().ctx),
            r.current_epoch as int == net@.epochs.len() - 1,
    {
        let mut r = net.context(self.mech.clone());
        r.initial_epoch = self.initial_epoch;
        r
    }
}

/// The neighbour list of artifact `i` in a complete graph over `n` nodes:
/// every id below `n` except `i`, in increasing order.
fn clique_adj(n: usize, i: usize) -> (r: Vec<usize>)
    requires
        i < n,
    ensures
        r@.no_duplicates(),
        id_set(r@) =~= below(n as int).remove(i as int),
{
    let mut r: Vec<usize> = Vec::new();
    let mut j: usize = 0;
    while j < n
        invariant
            i < n,
            j <= n,
            forall|a: int, b: int| 0 <= a < b < r@.len() ==> r@[a] < r@[b],
            forall|a: int| 0 <= a < r@.len() ==> r@[a] < j,
            id_set(r@) =~= below(j as int).remove(i as int),
        decreases n - j,
    {
        if j != i {
            let ghost prev = r@;
            r.push(j);
            proof {
                lemma_id_set_push(prev, j);
                assert(id_set(r@) =~= below(j + 1).remove(i as int));
            }
        } else {
            assert(id_set(r@) =~= below(j + 1).remove(i as int));
        }
        j = j + 1;
    }
    proof {
        assert forall|a: int, b: int| 0 <= a < r@.len() && 0 <= b < r@.len() && a != b implies r@[a]
            != r@[b] by {
            if a < b {
                assert(r@[a] < r@[b]);
            } else {
                assert(r@[b] < r@[a]);
            }
        }
    }
    r
}

} // verus!
