use skn::ec::{
    access_counts, find_expr_in_context, grammar_additions, is_course_file_name, mech_on_results,
    primitives, Comb, EcError, Results,
};
use skn::knowledge::Network;

fn comb(expr: &str, ll: Option<i64>) -> Comb {
    Comb {
        expr: expr.to_string(),
        log_likelihood: ll,
    }
}

fn results_with_grammar(grammar: Vec<Comb>) -> Results {
    Results {
        grammar,
        programs: vec![],
        hit_rate: 0,
        log_bic: None,
    }
}

fn ec_network(payload: &str) -> Network {
    Network::new(vec![("ec".to_string(), payload.to_string())])
}

#[test]
fn primitive_filtering() {
    // "B" is primitive: only "XY" is learned, and one artifact grows with it
    let mut net = ec_network("[]");
    let ctx = net.context("ec".to_string());
    let results = results_with_grammar(vec![
        comb("B", Some(-100_000)),
        comb("XY", Some(-200_000)),
    ]);
    mech_on_results(&mut net, ctx, &results).unwrap();
    assert_eq!(net.artifact_count(), 2);
    let triples = net.ids_to_contents(&vec![1]);
    assert_eq!(triples[0].1, "ec");
    assert_eq!(triples[0].2, "[\"XY\"]");
}

#[test]
fn non_finite_filter() {
    // a non-finite log-likelihood teaches nothing and mutates nothing
    let mut net = ec_network("[]");
    let ctx = net.context("ec".to_string());
    let results = results_with_grammar(vec![comb("XY", None)]);
    mech_on_results(&mut net, ctx, &results).unwrap();
    assert_eq!(net.artifact_count(), 1);
    assert_eq!(net.epoch_count(), 1);
}

#[test]
fn empty_grammar_mutates_nothing() {
    let mut net = ec_network("[]");
    let ctx = net.context("ec".to_string());
    let results = results_with_grammar(vec![]);
    mech_on_results(&mut net, ctx, &results).unwrap();
    assert_eq!(net.artifact_count(), 1);
    assert_eq!(net.epoch_count(), 1);
    assert_eq!(net.count_of(0, 0), 0);
}

#[test]
fn degenerate_probabilities_skip_all_accesses() {
    // both learned fragments sit in the context with equal likelihood:
    // the mechanism re-orients but records no accesses and grows nothing
    let mut net = ec_network("[\"XY\",\"ZW\"]");
    let ctx = net.context("ec".to_string());
    let results = results_with_grammar(vec![
        comb("XY", Some(-5_000_000)),
        comb("ZW", Some(-5_000_000)),
    ]);
    mech_on_results(&mut net, ctx, &results).unwrap();
    assert_eq!(net.artifact_count(), 1);
    assert_eq!(net.count_of(0, 0), 0);
    // the re-orient toward "XY" appended one epoch
    assert_eq!(net.epoch_count(), 2);
}

#[test]
fn distinct_probabilities_scale_accesses() {
    let counts = access_counts(&vec![(0, 0), (1, -1_000_000), (2, -500_000)]);
    assert_eq!(counts, vec![(0, 400), (1, 0), (2, 200)]);
}

#[test]
fn equal_probabilities_yield_no_counts() {
    let counts = access_counts(&vec![(0, -7), (1, -7)]);
    assert_eq!(counts, Vec::<(usize, u64)>::new());
}

#[test]
fn single_entry_yields_no_counts() {
    let counts = access_counts(&vec![(4, -7)]);
    assert_eq!(counts, Vec::<(usize, u64)>::new());
}

#[test]
fn primitives_hold_the_known_combinators() {
    let prims = primitives();
    assert_eq!(prims.len(), 32);
    assert!(prims.contains(&"B".to_string()));
    assert!(prims.contains(&"+1".to_string()));
    assert!(prims.contains(&"replace-substr-all".to_string()));
    assert!(!prims.contains(&"XY".to_string()));
}

#[test]
fn grammar_additions_collects_ec_payloads() {
    let listing = vec![
        (0usize, "ec".to_string(), "[\"a\",\"b\"]".to_string()),
        (1usize, "other".to_string(), "not json".to_string()),
        (2usize, "ec".to_string(), "[\"c\"]".to_string()),
    ];
    let adds = grammar_additions(&listing).unwrap();
    assert_eq!(adds, vec!["a".to_string(), "b".to_string(), "c".to_string()]);
}

#[test]
fn bad_payload_is_an_error() {
    let listing = vec![(0usize, "ec".to_string(), "not json".to_string())];
    assert_eq!(grammar_additions(&listing), Err(EcError::BadPayload));
    assert_eq!(find_expr_in_context(&listing, &"a".to_string()), Err(EcError::BadPayload));
}

#[test]
fn later_artifacts_win_expression_lookup() {
    let listing = vec![
        (0usize, "ec".to_string(), "[\"a\"]".to_string()),
        (5usize, "ec".to_string(), "[\"a\",\"b\"]".to_string()),
    ];
    assert_eq!(find_expr_in_context(&listing, &"a".to_string()), Ok(Some(5)));
    assert_eq!(find_expr_in_context(&listing, &"b".to_string()), Ok(Some(5)));
    assert_eq!(find_expr_in_context(&listing, &"c".to_string()), Ok(None));
}

#[test]
fn network_full_stops_the_mechanism() {
    let mut net = Network::with_limits(vec![("ec".to_string(), "[]".to_string())], 1);
    let ctx = net.context("ec".to_string());
    let results = results_with_grammar(vec![comb("XY", Some(-100_000))]);
    let r = mech_on_results(&mut net, ctx, &results);
    assert_eq!(r, Err(EcError::NetworkFull));
    assert_eq!(net.artifact_count(), 1);
}

#[test]
fn course_file_names() {
    assert!(is_course_file_name("course_01.json"));
    assert!(is_course_file_name("course_xy.json"));
    assert!(!is_course_file_name("course_1.json"));
    assert!(!is_course_file_name("course_001.json"));
    assert!(!is_course_file_name("lesson_01.json"));
    assert!(!is_course_file_name("course_01.yaml"));
    assert!(!is_course_file_name(""));
}
