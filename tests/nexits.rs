use space_metrics::{metrics, FuncSpace, Lines, Node, NodeCounts, SpaceKind};

/// What the hooks report for one node: function and closure arguments,
/// function and closure exits, decision points, functions, closures.
fn counts(c: [usize; 7]) -> NodeCounts {
    NodeCounts {
        fn_args: c[0],
        closure_args: c[1],
        fn_exits: c[2],
        closure_exits: c[3],
        cyclomatic: c[4],
        functions: c[5],
        closures: c[6],
        lines: Lines { sloc: 0, ploc: 0, lloc: 0, cloc: 0, blank: 0 },
    }
}

fn node(depth: usize, space: Option<SpaceKind>, row: usize, c: [usize; 7]) -> Node {
    Node {
        depth,
        opens_space: space.is_some(),
        kind: space.unwrap_or(SpaceKind::Unknown),
        name: None,
        start_row: row,
        end_row: row,
        child_count: 1,
        counts: counts(c),
        operators: Vec::new(),
        operands: Vec::new(),
    }
}

/// The root unit of a source text.
fn unit(source: &str) -> Node {
    let mut n = node(0, Some(SpaceKind::Unit), 0, [0; 7]);
    n.end_row = source.lines().count();
    n
}

fn function(depth: usize, row: usize, args: usize) -> Node {
    node(depth, Some(SpaceKind::Function), row, [args, 0, 0, 0, 0, 1, 0])
}

fn closure(depth: usize, row: usize, args: usize) -> Node {
    node(depth, Some(SpaceKind::Function), row, [0, args, 0, 0, 0, 0, 1])
}

fn branch(depth: usize, row: usize) -> Node {
    node(depth, None, row, [0, 0, 0, 0, 1, 0, 0])
}

fn fn_return(depth: usize, row: usize) -> Node {
    node(depth, None, row, [0, 0, 1, 0, 0, 0, 0])
}

fn closure_return(depth: usize, row: usize) -> Node {
    node(depth, None, row, [0, 0, 0, 1, 0, 0, 0])
}

fn run(nodes: Vec<Node>, file: &str) -> FuncSpace {
    metrics(&nodes, &file.to_string(), None).unwrap()
}

fn ratio(r: (usize, usize)) -> f64 {
    r.0 as f64 / r.1 as f64
}

fn check_nexits(space: &FuncSpace, fns: usize, closures: usize, total: usize, average: f64) {
    let s = &space.metrics.nexits;
    assert_eq!(s.fn_exits(), fns);
    assert_eq!(s.closure_exits(), closures);
    assert_eq!(s.total(), total);
    assert!((ratio(s.nexits_average()) - average).abs() < f64::EPSILON);
}

fn check_nargs(space: &FuncSpace, fns: usize, closures: usize, total: usize, average: f64) {
    let s = &space.metrics.nargs;
    assert_eq!(s.fn_args(), fns);
    assert_eq!(s.closure_args(), closures);
    assert_eq!(s.total(), total);
    assert!((ratio(s.nargs_average()) - average).abs() < f64::EPSILON);
}

#[test]
fn python_single_function() {
    let source = "def f(a, b):
                 if a:
                     return a";
    let nodes = vec![unit(source), function(1, 0, 2), branch(2, 1), fn_return(3, 2)];
    let space = run(nodes, "foo.py");
    check_nexits(&space, 1, 0, 1, 1.0); // 1 function
}

#[test]
fn rust_single_function() {
    let source = "fn f(a: bool, b: usize) {
                 if a {
                     return a;
                }
             }";
    let nodes = vec![unit(source), function(1, 0, 2), branch(2, 1), fn_return(3, 2)];
    let space = run(nodes, "foo.rs");
    check_nexits(&space, 1, 0, 1, 1.0); // 1 function
}

#[test]
fn c_single_function() {
    let source = "int f(int a, int b) {
                 if (a) {
                     return a;
                }
             }";
    let nodes = vec![unit(source), function(1, 0, 2), branch(2, 1), fn_return(3, 2)];
    let space = run(nodes, "foo.c");
    check_nexits(&space, 1, 0, 1, 1.0); // 1 function
}

#[test]
fn javascript_single_function() {
    let source = "function f(a, b) {
                 return a * b;
             }";
    let nodes = vec![unit(source), function(1, 0, 2), fn_return(2, 1)];
    let space = run(nodes, "foo.js");
    // One exit point over one function: the average is the total divided by
    // the number of functions and closures.
    check_nexits(&space, 1, 0, 1, 1.0);
}

#[test]
fn python_single_lambda() {
    let source = "bar = lambda a: True";
    let nodes = vec![unit(source), node(1, None, 0, [0; 7]), closure(2, 0, 1), closure_return(3, 0)];
    let space = run(nodes, "foo.py");
    check_nexits(&space, 0, 1, 1, 1.0); // 1 lambda
}

#[test]
fn rust_closures() {
    let source = "let bar = |i: i32| -> i32 { i + 1 };
             let bar = |i: i32| -> i32 { return i + 1 };";
    let nodes = vec![
        unit(source),
        node(1, None, 0, [0; 7]),
        closure(2, 0, 1),
        closure_return(3, 0),
        node(1, None, 1, [0; 7]),
        closure(2, 1, 1),
        closure_return(3, 1),
    ];
    let space = run(nodes, "foo.rs");
    check_nexits(&space, 0, 2, 2, 1.0); // 2 lambdas
}

#[test]
fn cpp_single_lambda() {
    let source = "auto bar = [](int x, int y) -> int { return x + y; };";
    let nodes = vec![unit(source), node(1, None, 0, [0; 7]), closure(2, 0, 2), closure_return(3, 0)];
    let space = run(nodes, "foo.cpp");
    check_nexits(&space, 0, 1, 1, 1.0); // 1 lambda
}

#[test]
fn javascript_single_closure() {
    let source = "var bar = function (a, b) {return a + b};";
    let nodes = vec![unit(source), node(1, None, 0, [0; 7]), closure(2, 0, 2), closure_return(3, 0)];
    let space = run(nodes, "foo.js");
    // One exit point over one closure.
    check_nexits(&space, 0, 1, 1, 1.0);
}

#[test]
fn python_functions() {
    let source = "def f(a, b):
                 if a:
                     return a
            def f(a, b):
                 if b:
                     return b";
    let nodes = vec![
        unit(source),
        function(1, 0, 2),
        branch(2, 1),
        fn_return(3, 2),
        function(1, 3, 2),
        branch(2, 4),
        fn_return(3, 5),
    ];
    let space = run(nodes, "foo.py");
    check_nexits(&space, 2, 0, 2, 1.0); // 2 functions
    assert_eq!(space.spaces.len(), 2);
}

#[test]
fn rust_functions() {
    let source = "fn f(a: bool, b: usize) {
                 if a {
                     a
                }
             }
             fn f1(a: bool, b: usize) {
                 if a {
                     return a;
                }
             }";
    let nodes = vec![
        unit(source),
        function(1, 0, 2),
        branch(2, 1),
        fn_return(3, 2),
        function(1, 5, 2),
        branch(2, 6),
        fn_return(3, 7),
    ];
    let space = run(nodes, "foo.rs");
    check_nexits(&space, 2, 0, 2, 1.0); // 2 functions
}

#[test]
fn c_functions() {
    let source = "int f(int a, int b) {
                 if (a) {
                     return a;
                }
             }
             int f1(int a, int b) {
                 if (a) {
                     return a;
                }
             }";
    let nodes = vec![
        unit(source),
        function(1, 0, 2),
        branch(2, 1),
        fn_return(3, 2),
        function(1, 5, 2),
        branch(2, 6),
        fn_return(3, 7),
    ];
    let space = run(nodes, "foo.c");
    check_nexits(&space, 2, 0, 2, 1.0); // 2 functions
}

#[test]
fn javascript_functions() {
    let source = "function f(a, b) {
                 return a * b;
             }
             function f1(a, b) {
                 return a * b;
             }";
    let nodes = vec![
        unit(source),
        function(1, 0, 2),
        fn_return(2, 1),
        function(1, 3, 2),
        fn_return(2, 4),
    ];
    let space = run(nodes, "foo.js");
    check_nargs(&space, 4, 0, 4, 2.0); // 2 functions

    let source = "function f(a, b) {
                 return a * b;
             }
             function f1(a, b, c) {
                 return a * b;
             }";
    let nodes = vec![
        unit(source),
        function(1, 0, 2),
        fn_return(2, 1),
        function(1, 3, 3),
        fn_return(2, 4),
    ];
    let space = run(nodes, "foo.js");
    check_nargs(&space, 5, 0, 5, 2.5); // 2 functions
}

#[test]
fn python_nested_functions() {
    let source = "def f(a, b):
                 def foo(a):
                     if a:
                         return 1
                 bar = lambda a: lambda b: b or True or True
                 return bar(foo(a))(a)";
    let nodes = vec![
        unit(source),
        function(1, 0, 2),
        function(2, 1, 1),
        branch(3, 2),
        fn_return(4, 3),
        node(2, None, 4, [0; 7]),
        closure(3, 4, 1),
        closure(4, 4, 1),
        fn_return(2, 5),
    ];
    let space = run(nodes, "foo.py");
    check_nargs(&space, 3, 2, 5, 1.25); // 2 functions + 2 lambdas = 4
}

#[test]
fn rust_nested_functions() {
    let source = "fn f(a: i32, b: i32) -> i32 {
                 fn foo(a: i32) -> i32 {
                     return a;
                 }
                 let bar = |a: i32, b: i32| -> i32 { a + 1 };
                 let bar1 = |b: i32| -> i32 { b + 1 };
                 return bar(foo(a), a);
             }";
    let nodes = vec![
        unit(source),
        function(1, 0, 2),
        function(2, 1, 1),
        fn_return(3, 2),
        node(2, None, 4, [0; 7]),
        closure(3, 4, 2),
        node(2, None, 5, [0; 7]),
        closure(3, 5, 1),
        fn_return(2, 6),
    ];
    let space = run(nodes, "foo.rs");
    check_nargs(&space, 3, 3, 6, 1.5); // 2 functions + 2 closures = 4
}

#[test]
fn cpp_nested_functions() {
    let source = "int f(int a, int b, int c) {
                 auto foo = [](int x) -> int { return x; };
                 auto bar = [](int x, int y) -> int { return x + y; };
                 return bar(foo(a), a);
             }";
    let nodes = vec![
        unit(source),
        function(1, 0, 3),
        node(2, None, 1, [0; 7]),
        closure(3, 1, 1),
        closure_return(4, 1),
        node(2, None, 2, [0; 7]),
        closure(3, 2, 2),
        closure_return(4, 2),
        fn_return(2, 3),
    ];
    let space = run(nodes, "foo.cpp");
    check_nargs(&space, 3, 3, 6, 2.0); // 1 function + 2 lambdas = 3
}

#[test]
fn javascript_nested_functions() {
    let source = "function f(a, b) {
                 function foo(a) {
                     return a;
                 }
                 var bar = function (a, b) {return a + b};
                 var bar1 = function (a) {return a};
                 return bar(foo(a), a);
             }";
    let nodes = vec![
        unit(source),
        function(1, 0, 2),
        function(2, 1, 1),
        fn_return(3, 2),
        node(2, None, 4, [0; 7]),
        closure(3, 4, 2),
        closure_return(4, 4),
        node(2, None, 5, [0; 7]),
        closure(3, 5, 1),
        closure_return(4, 5),
        fn_return(2, 6),
    ];
    let space = run(nodes, "foo.js");
    check_nargs(&space, 3, 3, 6, 1.5); // 2 functions + 2 lambdas = 4
}
