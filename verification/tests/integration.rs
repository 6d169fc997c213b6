use rand::RngExt;
use skn::knowledge::{Context, Network};
use skn::mechanism::{Mechanism, Skn, TouchMechanism};

/// a very basic mechanism, great for understanding what a mechanism
/// could look like.
struct BasicMech;

impl Mechanism for BasicMech {
    fn invoke(&self, net: &mut Network, ctx: Context, i: u64) {
        let items = ctx.get(net);
        let front = ctx.explore(net);
        println!(
            "looking at iteration {} with {} items in ctx and {} items in frontier",
            i,
            items.len(),
            front.len() - items.len()
        );
        // some random-ish accesses favoring older items
        let mut rng = rand::rng();
        for (id, _, _) in items {
            let cnt = rng.random_range(0..100u64) / (1 + id as u64);
            ctx.add_item_count(net, id, cnt);
        }
        // grow half the time
        if i % 2 == 0 {
            let _ = ctx.grow(net, format!("{}", i));
        }
    }
}

#[test]
fn it_works() {
    let t = 20;
    let embryo = vec![("basic_mech_name".to_string(), "some data".to_string())];
    let mech = BasicMech;
    let mut skn = Skn::new(embryo, t);
    skn.register("basic_mech_name".to_string(), mech);
    skn.run();
}

/// A mechanism that records one fixed access and grows one artifact on the
/// first iteration.
struct DetMech;

impl Mechanism for DetMech {
    fn invoke(&self, net: &mut Network, ctx: Context, i: u64) {
        if i == 1 {
            ctx.add_item_count(net, 0, 7);
            let _ = ctx.grow(net, "B".to_string());
        }
    }
}

#[test]
fn single_artifact_embryo_deterministic_mechanism() {
    let embryo = vec![("m".to_string(), "A".to_string())];
    let mut skn = Skn::new(embryo, 1);
    skn.register("m".to_string(), DetMech);
    skn.run();
    let net = skn.network();
    assert_eq!(net.artifact_count(), 2);
    assert_eq!(net.neighbors_of(0), vec![1]);
    assert_eq!(net.neighbors_of(1), vec![0]);
    let triples = net.ids_to_contents(&vec![0, 1]);
    assert_eq!(triples[0].1, "m");
    assert_eq!(triples[0].2, "A");
    assert_eq!(triples[1].1, "m");
    assert_eq!(triples[1].2, "B");
    // the initial epoch plus the one appended by grow's implicit orient
    assert_eq!(net.epoch_count(), 2);
    // artifact 0's accesses for the initial epoch
    assert_eq!(net.count_of(0, 0), 7);
}

/// A mechanism that does nothing at all.
struct IdleMech;

impl Mechanism for IdleMech {
    fn invoke(&self, _net: &mut Network, _ctx: Context, _i: u64) {}
}

#[test]
fn touch_mechanism_records_one_access_per_iteration() {
    let embryo = vec![("m".to_string(), "A".to_string()), ("m".to_string(), "B".to_string())];
    let mut skn = Skn::new(embryo, 3);
    skn.register("m".to_string(), TouchMechanism);
    skn.run();
    let net = skn.network();
    assert_eq!(net.count_of(0, 0), 3);
    assert_eq!(net.count_of(1, 0), 0);
    assert_eq!(net.epoch_count(), 1);
}

#[test]
fn idle_mechanisms_change_nothing() {
    let embryo = vec![("m".to_string(), "A".to_string()), ("m".to_string(), "B".to_string())];
    let mut skn = Skn::new(embryo, 5);
    skn.register("m".to_string(), IdleMech);
    skn.run();
    let net = skn.network();
    assert_eq!(net.artifact_count(), 2);
    assert_eq!(net.epoch_count(), 1);
}
