use skn::knowledge::{GrowError, Network};

fn pair(m: &str, d: &str) -> (String, String) {
    (m.to_string(), d.to_string())
}

#[test]
fn two_artifact_embryo_clique() {
    let net = Network::new(vec![pair("m", "A"), pair("m", "B")]);
    assert_eq!(net.artifact_count(), 2);
    assert_eq!(net.epoch_count(), 1);
    let ctx = net.context("m".to_string());
    assert_eq!(ctx.items, vec![0, 1]);
    assert_eq!(net.neighbors_of(0), vec![1]);
    assert_eq!(net.neighbors_of(1), vec![0]);
}

#[test]
fn embryo_of_size_one() {
    let mut net = Network::new(vec![pair("m", "A")]);
    assert_eq!(net.neighbors_of(0), Vec::<usize>::new());
    // any orient returns the whole graph while it is below the minimum size
    net.orient(0, 0);
    let ctx = net.context("m".to_string());
    assert_eq!(ctx.items, vec![0]);
    // growth must still produce an edge to artifact 0
    let id = net.grow("m".to_string(), "B".to_string(), 0).unwrap();
    assert_eq!(id, 1);
    assert_eq!(net.neighbors_of(1), vec![0]);
    assert_eq!(net.neighbors_of(0), vec![1]);
}

#[test]
fn small_network_orient_returns_everything() {
    let mut net = Network::new(vec![pair("m", "A"), pair("m", "B"), pair("m", "C")]);
    assert_eq!(net.min_context_size(), 5);
    net.orient(0, 2);
    let ctx = net.context("m".to_string());
    assert_eq!(ctx.items, vec![0, 1, 2]);
}

#[test]
fn epochs_grow_by_one_per_orient_and_grow() {
    let mut net = Network::new(vec![pair("m", "A"), pair("m", "B")]);
    let e0 = net.epoch_count();
    net.orient(0, 1);
    assert_eq!(net.epoch_count(), e0 + 1);
    net.grow("m".to_string(), "C".to_string(), 0).unwrap();
    assert_eq!(net.epoch_count(), e0 + 2);
}

#[test]
fn max_size_cap_fails_growth() {
    let mut net = Network::with_limits(
        vec![pair("m", "A"), pair("m", "B"), pair("m", "C")],
        3,
    );
    assert_eq!(net.size_limit(), 3);
    let r = net.grow("m".to_string(), "D".to_string(), 0);
    assert_eq!(r, Err(GrowError::Full));
    assert_eq!(net.artifact_count(), 3);
    assert_eq!(net.epoch_count(), 1);
}

#[test]
fn frontier_is_one_hop() {
    // grow a single path 0 - 1: the only antecedent of the new artifact is 0
    let mut net = Network::new(vec![pair("m", "A")]);
    net.grow("m".to_string(), "B".to_string(), 0).unwrap();
    assert_eq!(net.frontier_of(&vec![0]), vec![1]);
    assert_eq!(net.frontier_of(&vec![1]), vec![0]);
    assert_eq!(net.frontier_of(&vec![0, 1]), Vec::<usize>::new());
}

#[test]
fn frontier_disjoint_from_items() {
    let mut net = Network::new(vec![pair("m", "A"), pair("m", "B")]);
    for k in 0..6u64 {
        net.grow("m".to_string(), format!("d{}", k), 0).unwrap();
    }
    let ctx = net.context("m".to_string());
    for f in &ctx.frontier {
        assert!(!ctx.items.contains(f));
    }
}

#[test]
fn refresh_preserves_horizon() {
    let mut net = Network::new(vec![pair("m", "A"), pair("m", "B")]);
    let ctx = net.context("m".to_string());
    net.orient(0, 1);
    let ctx2 = ctx.update(&net);
    assert_eq!(ctx2.initial_epoch, ctx.initial_epoch);
    assert_eq!(ctx2.current_epoch, 1);
}

#[test]
fn grow_stamps_tag_and_payload() {
    let mut net = Network::new(vec![pair("m", "A")]);
    let id = net
        .grow("other".to_string(), "payload".to_string(), 0)
        .unwrap();
    let triples = net.ids_to_contents(&vec![id]);
    assert_eq!(triples[0].0, id);
    assert_eq!(triples[0].1, "other");
    assert_eq!(triples[0].2, "payload");
}

#[test]
fn access_counts_add_up() {
    let mut a = Network::new(vec![pair("m", "A"), pair("m", "B")]);
    let mut b = Network::new(vec![pair("m", "A"), pair("m", "B")]);
    a.item_count(0, 0, 3);
    a.item_count(0, 0, 4);
    b.item_count(0, 0, 7);
    assert_eq!(a.count_of(0, 0), 7);
    assert_eq!(b.count_of(0, 0), 7);
}

#[test]
fn recent_counts_respect_the_horizon() {
    let mut net = Network::new(vec![pair("m", "A"), pair("m", "B")]);
    net.item_count(0, 1, 5);
    net.orient(0, 0);
    net.item_count(1, 1, 2);
    assert_eq!(net.count_of(1, 0), 7);
    assert_eq!(net.count_of(1, 1), 2);
    assert_eq!(net.count_of(1, 2), 0);
}

#[test]
fn mirror_and_no_self_loops_hold_after_growth() {
    let mut net = Network::new(vec![pair("m", "A"), pair("m", "B")]);
    for k in 0..5u64 {
        net.grow("m".to_string(), format!("d{}", k), 0).unwrap();
    }
    let n = net.artifact_count();
    for i in 0..n {
        let adj = net.neighbors_of(i);
        assert!(!adj.contains(&i));
        for &j in &adj {
            assert!(net.neighbors_of(j).contains(&i));
        }
    }
}

#[test]
fn context_respects_the_size_bound() {
    let mut net = Network::new(vec![
        pair("m", "A"),
        pair("m", "B"),
        pair("m", "C"),
        pair("m", "D"),
        pair("m", "E"),
        pair("m", "F"),
    ]);
    for k in 0..10u64 {
        net.grow("m".to_string(), format!("d{}", k), 0).unwrap();
    }
    let n = net.artifact_count();
    let bound = net.min_context_size().max(n);
    let ctx = net.context("m".to_string());
    assert!(ctx.items.len() <= bound);
    assert!(!ctx.items.is_empty());
}

#[test]
fn edge_list_is_canonical() {
    let mut net = Network::new(vec![pair("m", "A"), pair("m", "B")]);
    for k in 0..4u64 {
        net.grow("m".to_string(), format!("d{}", k), 0).unwrap();
    }
    let edges = net.edge_list();
    for w in edges.windows(2) {
        assert!(w[0] < w[1]);
    }
    for &(i, j) in &edges {
        assert!(i < j);
        assert!(net.neighbors_of(i).contains(&j));
    }
    let mut count = 0;
    for i in 0..net.artifact_count() {
        count += net.neighbors_of(i).len();
    }
    assert_eq!(edges.len() * 2, count);
}
