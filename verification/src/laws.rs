//! The library's laws, stated and proved over the network model. Each proof
//! function states one property of every reachable well-formed state.

use vstd::prelude::*;
use crate::model::NetworkModel;
use crate::model::spec_record_access;
use crate::model::spec_record_counts;
use crate::model::frontier_set;
use crate::model::neighborhood;
use crate::model::padded;
use crate::model::bumped;
use crate::model::imax;
use crate::knowledge::Context;
use crate::idvec::id_set;
use crate::ec::ll_min;
use crate::ec::ll_max;
use crate::ec::spec_norm_counts;

verus! {

/// Undirected mirror: in a well-formed network, `b` is a neighbour of `a`
/// exactly when `a` is a neighbour of `b`.
pub proof fn lemma_undirected_mirror(m: NetworkModel, a: int, b: int)
    requires
        m.wf(),
        0 <= a < m.n(),
        0 <= b < m.n(),
    ensures
        m.items[a].adj.contains(b) <==> m.items[b].adj.contains(a),
{
}

/// No self-loops: no artifact is its own neighbour.
pub proof fn lemma_no_self_loops(m: NetworkModel, a: int)
    requires
        m.wf(),
        0 <= a < m.n(),
    ensures
        !m.items[a].adj.contains(a),
{
    assert(m.items[a].wf(a, m.n()));
}

/// Context bound: every epoch's context holds at most
/// `max(context_min_size, n)` ids.
pub proof fn lemma_context_bound(m: NetworkModel, e: int)
    requires
        m.wf(),
        0 <= e < m.epochs.len(),
    ensures
        m.epochs[e].ctx.len() <= imax(m.context_min_size, m.n()),
{
    assert(m.epochs[e].wf(m.n(), m.context_min_size));
}

/// Access additivity: recording `a` accesses and then `b` accesses for the
/// same artifact at the same epoch leaves the network in the same state as
/// recording `a + b` accesses at once.
pub proof fn lemma_access_additive(m: NetworkModel, epoch: int, id: int, a: int, b: int)
    requires
        0 <= epoch < m.epochs.len(),
        0 <= id < m.items.len(),
    ensures
        spec_record_access(spec_record_access(m, epoch, id, a), epoch, id, b) =~~=
            spec_record_access(m, epoch, id, a + b),
{
    let m1 = spec_record_access(m, epoch, id, a);
    let m2 = spec_record_access(m1, epoch, id, b);
    let m3 = spec_record_access(m, epoch, id, a + b);
    let c = m.items[id].counts;
    let p = padded(c, epoch);
    assert(bumped(c, epoch, a).len() == p.len());
    assert(padded(bumped(c, epoch, a), epoch) == bumped(c, epoch, a));
    assert(bumped(bumped(c, epoch, a), epoch, b) =~= bumped(c, epoch, a + b));
    assert(m2.items[id].counts =~= m3.items[id].counts);
    assert(m2.items[id] =~~= m3.items[id]);
    assert(m2.items =~~= m3.items);
    assert(m2.epochs[epoch].accessed =~= m3.epochs[epoch].accessed);
    assert(m2.epochs[epoch] =~~= m3.epochs[epoch]);
    assert(m2.epochs =~~= m3.epochs);
}

proof fn lemma_ll_span_collapses(s: Seq<(usize, i64)>)
    requires
        s.len() >= 1,
        forall|a: int, b: int|
            0 <= a < s.len() && 0 <= b < s.len() ==> (#[trigger] s[a]).1 == (#[trigger] s[b]).1,
    ensures
        ll_min(s) == s[0].1,
        ll_max(s) == s[0].1,
    decreases s.len(),
{
    if s.len() > 1 {
        let p = s.drop_last();
        assert forall|a: int, b: int|
            0 <= a < p.len() && 0 <= b < p.len() implies (#[trigger] p[a]).1 == (
        #[trigger] p[b]).1 by {
            assert(p[a] == s[a] && p[b] == s[b]);
        }
        lemma_ll_span_collapses(p);
        assert(p[0] == s[0]);
        assert(s.last().1 == s[0].1);
    }
}

/// Degenerate statistics: when every located fragment carries one and the
/// same log-likelihood, the normalized counts are empty and recording them
/// leaves the network untouched — no access is issued, and nothing fails.
pub proof fn lemma_degenerate_statistics_skip(
    entries: Seq<(usize, i64)>,
    m: NetworkModel,
    epoch: int,
)
    requires
        forall|a: int, b: int|
            0 <= a < entries.len() && 0 <= b < entries.len() ==> (#[trigger] entries[a]).1 == (
            #[trigger] entries[b]).1,
    ensures
        spec_norm_counts(entries).len() == 0,
        spec_record_counts(m, epoch, spec_norm_counts(entries)) == m,
{
    if entries.len() >= 1 {
        lemma_ll_span_collapses(entries);
    }
}

/// Frontier disjointness: a handle's frontier never overlaps its items.
pub proof fn lemma_frontier_disjoint(c: Context, m: NetworkModel)
    requires
        c.valid_for(m),
    ensures
        id_set(c.frontier@).disjoint(id_set(c.items@)),
{
}

/// One-hop frontier on the path graph over three artifacts `0 - 1 - 2`: seen
/// from `{0}` the frontier is `{1}`, and seen from `{1}` it is `{0, 2}`.
pub proof fn lemma_frontier_one_hop(m: NetworkModel)
    requires
        m.items.len() == 3,
        m.items[0].adj =~= set![1int],
        m.items[1].adj =~= set![0int, 2int],
        m.items[2].adj =~= set![1int],
    ensures
        frontier_set(m.items, set![0int]) =~= set![1int],
        frontier_set(m.items, set![1int]) =~= set![0int, 2int],
{
    assert(neighborhood(m.items, set![0int]).contains(1int)) by {
        assert(set![0int].contains(0int) && m.items[0].adj.contains(1int));
    }
    assert forall|j: int| neighborhood(m.items, set![0int]).contains(j) implies j == 1int by {
        let i = choose|i: int| #[trigger]
            set![0int].contains(i) && 0 <= i < m.items.len() && m.items[i].adj.contains(j);
        assert(i == 0);
    }
    assert(neighborhood(m.items, set![1int]).contains(0int)) by {
        assert(set![1int].contains(1int) && m.items[1].adj.contains(0int));
    }
    assert(neighborhood(m.items, set![1int]).contains(2int)) by {
        assert(set![1int].contains(1int) && m.items[1].adj.contains(2int));
    }
    assert forall|j: int| neighborhood(m.items, set![1int]).contains(j) implies j == 0int || j
        == 2int by {
        let i = choose|i: int| #[trigger]
            set![1int].contains(i) && 0 <= i < m.items.len() && m.items[i].adj.contains(j);
        assert(i == 1);
    }
}

} // verus!
