use space_metrics::{metrics, ChosenMetrics, Lines, MetricsList, Node, NodeCounts, SpaceKind};

fn lines(sloc: usize, cloc: usize) -> Lines {
    Lines { sloc, ploc: sloc, lloc: 0, cloc, blank: 0 }
}

fn counts(fn_exits: usize, cyclomatic: usize, functions: usize, closures: usize, l: Lines) -> NodeCounts {
    NodeCounts {
        fn_args: 0,
        closure_args: 0,
        fn_exits,
        closure_exits: 0,
        cyclomatic,
        functions,
        closures,
        lines: l,
    }
}

fn node(depth: usize, space: Option<SpaceKind>, rows: (usize, usize), c: NodeCounts) -> Node {
    Node {
        depth,
        opens_space: space.is_some(),
        kind: space.unwrap_or(SpaceKind::Unknown),
        name: Some(format!("n{}", rows.0)),
        start_row: rows.0,
        end_row: rows.1,
        child_count: 1,
        counts: c,
        operators: Vec::new(),
        operands: Vec::new(),
    }
}

fn plain(depth: usize, row: usize) -> Node {
    node(depth, None, (row, row), NodeCounts::zero())
}

#[test]
fn empty_unit_has_zero_span_and_zero_metrics() {
    let mut root = node(0, Some(SpaceKind::Unit), (0, 0), NodeCounts::zero());
    root.child_count = 0;
    let space = metrics(&vec![root], &"empty.rs".to_string(), None).unwrap();
    assert_eq!((space.start_line, space.end_line), (0, 0));
    assert_eq!(space.kind, SpaceKind::Unit);
    assert_eq!(space.name, Some("empty.rs".to_string()));
    assert!(space.spaces.is_empty());
    assert_eq!(space.metrics.nexits.total(), 0);
    assert_eq!(space.metrics.nargs.total(), 0);
    assert_eq!(space.metrics.nom.total(), 0);
    assert_eq!(space.metrics.cyclomatic.cyclomatic(), 0);
    assert_eq!(space.metrics.loc.sloc(), 0);
    assert_eq!(space.metrics.halstead.length(), 0);
}

#[test]
fn no_nodes_gives_none() {
    assert!(metrics(&Vec::new(), &"a.rs".to_string(), None).is_none());
}

#[test]
fn no_space_opened_gives_none() {
    let nodes = vec![plain(0, 0), plain(1, 1)];
    assert!(metrics(&nodes, &"a.rs".to_string(), None).is_none());
}

#[test]
fn line_spans_of_unit_and_function() {
    let nodes = vec![
        node(0, Some(SpaceKind::Unit), (0, 9), NodeCounts::zero()),
        node(1, Some(SpaceKind::Function), (2, 4), NodeCounts::zero()),
    ];
    let space = metrics(&nodes, &"a.rs".to_string(), None).unwrap();
    assert_eq!((space.start_line, space.end_line), (1, 9));
    assert_eq!((space.spaces[0].start_line, space.spaces[0].end_line), (3, 5));
    assert_eq!(space.spaces[0].name, Some("n2".to_string()));
}

#[test]
fn children_in_document_order() {
    // unit { class A { fn b { closure c } fn d } fn e }
    let nodes = vec![
        node(0, Some(SpaceKind::Unit), (0, 20), NodeCounts::zero()),
        node(1, Some(SpaceKind::Class), (1, 10), NodeCounts::zero()),
        node(2, Some(SpaceKind::Function), (2, 5), NodeCounts::zero()),
        plain(3, 3),
        node(4, Some(SpaceKind::Function), (3, 3), NodeCounts::zero()),
        node(2, Some(SpaceKind::Function), (6, 9), NodeCounts::zero()),
        node(1, Some(SpaceKind::Function), (11, 15), NodeCounts::zero()),
    ];
    let space = metrics(&nodes, &"a.rs".to_string(), None).unwrap();
    assert_eq!(space.spaces.len(), 2);
    let class = &space.spaces[0];
    assert_eq!(class.kind, SpaceKind::Class);
    assert_eq!(class.spaces.len(), 2);
    assert_eq!(class.spaces[0].start_line, 3);
    assert_eq!(class.spaces[0].spaces.len(), 1);
    assert_eq!(class.spaces[0].spaces[0].start_line, 4);
    assert_eq!(class.spaces[1].start_line, 7);
    assert_eq!(space.spaces[1].start_line, 12);
}

#[test]
fn metrics_are_cumulative() {
    let nodes = vec![
        node(0, Some(SpaceKind::Unit), (0, 20), counts(0, 1, 0, 0, lines(1, 0))),
        node(1, Some(SpaceKind::Function), (1, 10), counts(1, 1, 1, 0, lines(2, 1))),
        node(2, Some(SpaceKind::Function), (2, 5), counts(2, 3, 1, 0, lines(4, 0))),
        node(1, Some(SpaceKind::Function), (11, 15), counts(1, 0, 1, 0, lines(3, 0))),
        plain(2, 12),
    ];
    let space = metrics(&nodes, &"a.rs".to_string(), None).unwrap();
    let inner = &space.spaces[0].spaces[0];
    assert_eq!(inner.metrics.nexits.fn_exits(), 2);
    assert_eq!(inner.metrics.cyclomatic.cyclomatic(), 3);
    let first = &space.spaces[0];
    assert_eq!(first.metrics.nexits.fn_exits(), 3);
    assert_eq!(first.metrics.cyclomatic.cyclomatic(), 4);
    assert_eq!(first.metrics.nom.functions(), 2);
    assert_eq!(first.metrics.loc.sloc(), 6);
    assert_eq!(first.metrics.loc.cloc(), 1);
    assert_eq!(space.metrics.nexits.fn_exits(), 4);
    assert_eq!(space.metrics.cyclomatic.cyclomatic(), 5);
    assert_eq!(space.metrics.nom.functions(), 3);
    assert_eq!(space.metrics.nom.total(), 3);
    assert_eq!(space.metrics.loc.sloc(), 10);
    // Averages over the functions and closures of each space.
    assert_eq!(space.metrics.nexits.nexits_average(), (4, 3));
    assert_eq!(space.metrics.cyclomatic.cyclomatic_average(), (5, 3));
    assert_eq!(first.metrics.nexits.nexits_average(), (3, 2));
}

#[test]
fn zero_functions_give_zero_averages() {
    let nodes = vec![
        node(0, Some(SpaceKind::Unit), (0, 3), counts(2, 2, 0, 0, lines(3, 0))),
    ];
    let space = metrics(&nodes, &"a.rs".to_string(), None).unwrap();
    assert_eq!(space.metrics.nexits.total(), 2);
    assert_eq!(space.metrics.nexits.nexits_average(), (0, 1));
    assert_eq!(space.metrics.nargs.nargs_average(), (0, 1));
    assert_eq!(space.metrics.cyclomatic.cyclomatic_average(), (0, 1));
}

#[test]
fn nodes_before_the_first_space_are_not_counted() {
    let nodes = vec![
        node(0, None, (0, 5), counts(7, 7, 7, 0, lines(7, 0))),
        node(1, Some(SpaceKind::Function), (1, 2), counts(1, 0, 1, 0, lines(2, 0))),
    ];
    let space = metrics(&nodes, &"a.rs".to_string(), None).unwrap();
    assert_eq!(space.kind, SpaceKind::Function);
    assert_eq!(space.metrics.nexits.fn_exits(), 1);
    assert_eq!(space.metrics.loc.sloc(), 2);
}

#[test]
fn maintainability_is_recomputed_not_summed() {
    let mut f = node(1, Some(SpaceKind::Function), (1, 3), counts(0, 2, 1, 0, lines(3, 1)));
    f.operators = vec![1, 2, 1];
    f.operands = vec![b"x".to_vec()];
    let mut g = node(1, Some(SpaceKind::Function), (4, 6), counts(0, 1, 1, 0, lines(2, 0)));
    g.operators = vec![1];
    g.operands = vec![b"y".to_vec(), b"x".to_vec()];
    let nodes = vec![
        node(0, Some(SpaceKind::Unit), (0, 7), counts(0, 1, 0, 0, lines(1, 0))),
        f,
        g,
    ];
    let chosen = ChosenMetrics::new(&[MetricsList::Mi]);
    let space = metrics(&nodes, &"a.rs".to_string(), Some(&chosen)).unwrap();
    let mi = &space.metrics.mi;
    assert_eq!(mi.sloc(), 6);
    assert_eq!(mi.cloc(), 1);
    assert_eq!(mi.cyclomatic(), 4);
    let h = mi.halstead();
    assert_eq!((h.u_operators(), h.operators(), h.u_operands(), h.operands()), (2, 4, 2, 3));
    let first = &space.spaces[0].metrics.mi;
    assert_eq!((first.sloc(), first.cyclomatic()), (3, 2));
    let fh = first.halstead();
    assert_eq!((fh.u_operators(), fh.operators(), fh.u_operands(), fh.operands()), (2, 3, 1, 1));
    let second = &space.spaces[1].metrics.mi;
    assert_eq!((second.sloc(), second.cyclomatic()), (2, 1));
    // The parent's score is not the sum of its children's.
    assert_ne!(mi.sloc(), first.sloc() + second.sloc());
}

#[test]
fn unselected_metrics_stay_zero() {
    let nodes = vec![
        node(0, Some(SpaceKind::Unit), (0, 7), counts(1, 1, 0, 0, lines(1, 0))),
        node(1, Some(SpaceKind::Function), (1, 3), counts(2, 2, 1, 0, lines(3, 1))),
    ];
    let chosen = ChosenMetrics::new(&[MetricsList::Nexits]);
    let space = metrics(&nodes, &"a.rs".to_string(), Some(&chosen)).unwrap();
    assert_eq!(space.metrics.nexits.fn_exits(), 3);
    assert_eq!(space.metrics.cyclomatic.cyclomatic(), 0);
    assert_eq!(space.metrics.nom.total(), 0);
    assert_eq!(space.metrics.loc.sloc(), 0);
    assert_eq!(space.metrics.mi.sloc(), 0);
}

#[test]
fn space_kind_names() {
    assert_eq!(SpaceKind::Unit.as_str(), "unit");
    assert_eq!(SpaceKind::Namespace.as_str(), "namespace");
    assert_eq!(SpaceKind::Impl.as_str(), "impl");
}
