//! The mechanism registry and the integration loop that drives the network.

use vstd::prelude::*;
use crate::knowledge::Network;
use crate::knowledge::Context;
use crate::model::NetworkModel;
use crate::model::lemma_extends_trans;

verus! {

/// A mechanism drives the network: on each iteration it receives a fresh
/// context handle and the iteration number, reads what it needs, and mutates
/// the network only through the context's entry points. Whatever it does, it
/// must leave the network well-formed and may only extend it.
pub trait Mechanism: Sized {
    fn invoke(&self, net: &mut Network, ctx: Context, t: u64)
        requires
            old(net).wf(),
            ctx.valid_for(old(net)@),
        ensures
            final(net).wf(),
            final(net)@.extends(old(net)@),
    ;
}

/// A minimal mechanism: it records one access to the first item of its
/// context on every iteration, when the count still fits. Useful for
/// exercising the network without any external collaborator.
pub struct TouchMechanism;

impl Mechanism for TouchMechanism {
    fn invoke(&self, net: &mut Network, ctx: Context, _t: u64) {
        proof {
            crate::model::lemma_extends_refl(net@);
        }
        if ctx.items.len() > 0 {
            let id = ctx.items[0];
            proof {
                assert((ctx.items@[0] as int) < net@.n());
            }
            let tot = net.count_of(id, 0);
            if tot < u64::MAX {
                ctx.add_item_count(net, id, 1);
            }
        }
    }
}

/// The named mechanisms registered with a knowledge network.
pub(crate) struct MechanismRegistry<M> {
    pub(crate) reg: Vec<(String, M)>,
}

impl<M: Mechanism> MechanismRegistry<M> {
    pub(crate) fn new() -> (r: MechanismRegistry<M>)
        ensures
            r.reg@ == Seq::<(String, M)>::empty(),
    {
        let r = MechanismRegistry { reg: Vec::new() };
        proof {
            assert(r.reg@ =~= Seq::<(String, M)>::empty());
        }
        r
    }

    pub(crate) fn register(&mut self, name: String, mech: M)
        ensures
            final(self).reg@ == old(self).reg@.push((name, mech)),
    {
        self.reg.push((name, mech));
    }
}

/// A knowledge network together with its mechanisms and an iteration budget.
pub struct Skn<M> {
    network: Network,
    reg: MechanismRegistry<M>,
    t: u64,
}

impl<M: Mechanism> Skn<M> {
    /// The held network is well-formed.
    pub closed spec fn wf(self) -> bool {
        self.network.wf()
    }

    /// The model of the held network.
    pub closed spec fn net_model(self) -> NetworkModel {
        self.network@
    }

    /// The registered `(name, mechanism)` pairs, in registration order.
    pub closed spec fn registry(self) -> Seq<(String, M)> {
        self.reg.reg@
    }

    /// The number of iterations the integration loop runs.
    pub closed spec fn iterations(self) -> u64 {
        self.t
    }

    /// Builds the network from a non-empty embryo; `iterations` is the number
    /// of rounds the integration loop gives each mechanism. The registry
    /// starts empty.
    pub fn new(embryo: Vec<(String, String)>, iterations: u64) -> (r: Skn<M>)
        requires
            embryo@.len() >= 1,
        ensures
            r.wf(),
            crate::knowledge::new_post(
                r.net_model(),
                embryo@.map_values(|p: (String, String)| (p.0@, p.1@)),
                crate::model::NET_MAX_SIZE as int,
            ),
            r.registry() == Seq::<(String, M)>::empty(),
            r.iterations() == iterations,
    {
        Skn { network: Network::new(embryo), reg: MechanismRegistry::new(), t: iterations }
    }

    /// Registers a mechanism under a name; mechanisms run in registration
    /// order.
    pub fn register(&mut self, name: String, mech: M)
        requires
            old(self).wf(),
        ensures
            final(self).wf(),
            final(self).net_model() == old(self).net_model(),
            final(self).registry() == old(self).registry().push((name, mech)),
            final(self).iterations() == old(self).iterations(),
    {
        self.reg.register(name, mech);
    }

    /// A read-only borrow of the network.
    pub fn network(&self) -> (r: &Network)
        ensures
            r.wf() <==> self.wf(),
            r@ == self.net_model(),
    {
        &self.network
    }

    /// Runs the integration loop: for each iteration, every registered
    /// mechanism is invoked once with a context freshly derived from the
    /// latest epoch. The network stays well-formed and is only extended; when
    /// there is no mechanism or no iteration, it is untouched.
    pub fn run(&mut self)
        requires
            old(self).wf(),
        ensures
            final(self).wf(),
            final(self).net_model().extends(old(self).net_model()),
            final(self).registry() == old(self).registry(),
            final(self).iterations() == old(self).iterations(),
            old(self).registry().len() == 0 || old(self).iterations() == 0 ==> final(self).net_model()
                == old(self).net_model(),
    {
        let t_max = self.t;
        let mut t: u64 = 0;
        proof {
            crate::model::lemma_extends_refl(self.network@);
        }
        while t < t_max
            invariant
                self.network.wf(),
                self.network@.extends(old(self).network@),
                self.reg == old(self).reg,
                self.t == old(self).t,
                t <= t_max,
                t_max == old(self).t,
                old(self).reg.reg@.len() == 0 || old(self).t == 0 ==> self.network@ == old(
                    self,
                ).network@,
            decreases t_max - t,
        {
            let iteration = t + 1;
            let n_mechs = self.reg.reg.len();
            let mut k: usize = 0;
            while k < n_mechs
                invariant
                    self.network.wf(),
                    self.network@.extends(old(self).network@),
                    self.reg == old(self).reg,
                    self.t == old(self).t,
                    n_mechs == self.reg.reg@.len(),
                    k <= n_mechs,
                    t_max == old(self).t,
                    t < t_max,
                    old(self).reg.reg@.len() == 0 || old(self).t == 0 ==> self.network@ == old(
                        self,
                    ).network@,
                decreases n_mechs - k,
            {
                let ghost before = self.network@;
                let pair = &self.reg.reg[k];
                let name = pair.0.clone();
                let ctx = self.network.context(name);
                pair.1.invoke(&mut self.network, ctx, iteration);
                proof {
                    lemma_extends_trans(self.network@, before, old(self).network@);
                }
                k = k + 1;
            }
            t = t + 1;
        }
    }
}

} // verus!
