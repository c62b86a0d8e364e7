use space_metrics::halstead::{HalsteadMaps, Stats};
use space_metrics::{operands_and_operators, ChosenMetrics, Lines, MetricsList, Node, NodeCounts, SpaceKind};

#[test]
fn merge_adds_counts_and_unions_keys() {
    let mut a = HalsteadMaps::new();
    a.add_operator(1, 2);
    a.add_operand(&b"x".to_vec(), 1);
    let mut b = HalsteadMaps::new();
    b.add_operator(1, 3);
    b.add_operator(4, 1);
    b.add_operand(&b"y".to_vec(), 2);
    a.merge(&b);
    let mut s = Stats::new();
    a.finalize(&mut s);
    assert_eq!((s.u_operators(), s.operators(), s.u_operands(), s.operands()), (2, 6, 2, 3));
    assert_eq!(s.length(), 9);
    assert_eq!(s.vocabulary(), 4);
    assert_eq!(a.operator_keys(), vec![1, 4]);
    assert_eq!(a.operand_keys(), vec![b"x".to_vec(), b"y".to_vec()]);
}

#[test]
fn counts_saturate() {
    let mut a = HalsteadMaps::new();
    a.add_operator(7, usize::MAX);
    let mut b = HalsteadMaps::new();
    b.add_operator(7, 5);
    a.merge(&b);
    let mut s = Stats::new();
    a.finalize(&mut s);
    assert_eq!(s.operators(), usize::MAX);
    assert_eq!(s.u_operators(), 1);
}

#[test]
fn empty_maps_finalize_to_zero() {
    let a = HalsteadMaps::new();
    let mut s = Stats::new();
    a.finalize(&mut s);
    assert_eq!((s.u_operators(), s.operators(), s.u_operands(), s.operands()), (0, 0, 0, 0));
}

#[test]
fn finalizing_twice_gives_the_same_stats() {
    let mut a = HalsteadMaps::new();
    a.add_operator(3, 2);
    a.add_operand(&b"q".to_vec(), 4);
    let mut first = Stats::new();
    a.finalize(&mut first);
    let mut second = first;
    a.finalize(&mut second);
    assert_eq!(
        (first.u_operators(), first.operators(), first.u_operands(), first.operands()),
        (second.u_operators(), second.operators(), second.u_operands(), second.operands())
    );
}

#[test]
fn chosen_metrics_expand_mi() {
    let c = ChosenMetrics::new(&[MetricsList::Nargs, MetricsList::Mi, MetricsList::Loc]);
    assert_eq!(
        c.metrics(),
        vec![
            MetricsList::Cyclomatic,
            MetricsList::Loc,
            MetricsList::Halstead,
            MetricsList::Mi,
            MetricsList::Nargs
        ]
    );
    assert!(c.is_metric(MetricsList::Halstead));
    assert!(!c.is_metric(MetricsList::Nom));
    assert!(c.is_last(&MetricsList::Nargs));
    assert!(!c.is_full());
    let all = ChosenMetrics::new(&[
        MetricsList::Nargs,
        MetricsList::Nexits,
        MetricsList::Cyclomatic,
        MetricsList::Halstead,
        MetricsList::Loc,
        MetricsList::Mi,
        MetricsList::Nom,
        MetricsList::Nargs,
    ]);
    assert!(all.is_full());
    let none = ChosenMetrics::new(&[]);
    assert!(!none.is_last(&MetricsList::Nargs));
}

#[test]
fn metric_names() {
    assert_eq!(
        MetricsList::all(),
        vec!["nargs", "nexits", "cyclomatic", "halstead", "mi", "loc", "nom"]
    );
    assert_eq!(MetricsList::Mi.name(), "mi");
}

fn node(depth: usize, space: Option<SpaceKind>, ops: Vec<u16>, opds: Vec<&[u8]>) -> Node {
    Node {
        depth,
        opens_space: space.is_some(),
        kind: space.unwrap_or(SpaceKind::Unknown),
        name: None,
        start_row: depth,
        end_row: depth + 1,
        child_count: 1,
        counts: NodeCounts {
            fn_args: 0,
            closure_args: 0,
            fn_exits: 0,
            closure_exits: 0,
            cyclomatic: 0,
            functions: 0,
            closures: 0,
            lines: Lines { sloc: 0, ploc: 0, lloc: 0, cloc: 0, blank: 0 },
        },
        operators: ops,
        operands: opds.into_iter().map(|b| b.to_vec()).collect(),
    }
}

#[test]
fn operands_and_operators_per_space() {
    let nodes = vec![
        node(0, Some(SpaceKind::Unit), vec![0], vec![b"a"]),
        node(1, Some(SpaceKind::Function), vec![1, 1], vec![b"b", b"a"]),
        node(2, None, vec![2], vec![&[0xff, b'c']]),
        node(1, None, vec![0], vec![b"d"]),
    ];
    let names = vec!["=".to_string(), "+".to_string(), "*".to_string()];
    let ops = operands_and_operators(&nodes, &names, &"x.py".to_string()).unwrap();
    assert_eq!(ops.name, Some("x.py".to_string()));
    assert_eq!(ops.spaces.len(), 1);
    let f = &ops.spaces[0];
    assert_eq!(f.operators, vec!["+".to_string(), "*".to_string()]);
    assert_eq!(f.operands, vec!["b".to_string(), "a".to_string(), "\u{fffd}c".to_string()]);
    assert_eq!(ops.operators, vec!["=".to_string(), "+".to_string(), "*".to_string()]);
    assert_eq!(
        ops.operands,
        vec!["a".to_string(), "b".to_string(), "\u{fffd}c".to_string(), "d".to_string()]
    );
}

#[test]
fn operands_and_operators_without_space() {
    let nodes = vec![node(0, None, vec![], vec![])];
    assert!(operands_and_operators(&nodes, &Vec::new(), &"x.py".to_string()).is_none());
}
