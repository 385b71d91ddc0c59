use compilation::atoms::{AtomicTypeEnum, Integer};
use compilation::machine::{
    Assignment, AtomicType, BuiltIn, ClosureInstantiation, Declaration, Expression, FnDef, FnType, IfStatement,
    Allocation, MachineType, Memory, Statement, TupleExpression, Value,
};
use compilation::weak_referrer::WeakReferrer;

fn mem(s: &str) -> Memory {
    Memory(String::from(s))
}

fn int_t() -> MachineType {
    MachineType::AtomicType(AtomicType(AtomicTypeEnum::INT))
}

fn bool_t() -> MachineType {
    MachineType::AtomicType(AtomicType(AtomicTypeEnum::BOOL))
}

fn assign(target: &str, value: Expression) -> Statement {
    Statement::Assignment(Assignment { target: mem(target), value })
}

fn neighbours(graph: &Vec<(Memory, Vec<Memory>)>, node: &str) -> Vec<Memory> {
    graph.iter().rev().find(|(k, _)| k == &mem(node)).map(|(_, v)| v.clone()).unwrap_or_default()
}

fn weakening_fn_def(env: Vec<MachineType>) -> FnDef {
    FnDef {
        name: String::from("f"),
        statements: vec![assign("x", Expression::Value(Value::Memory(mem("arg"))))],
        arguments: vec![(mem("arg"), int_t())],
        ret: (Value::Memory(mem("x")), int_t()),
        allocations: vec![Declaration { memory: mem("x"), type_: int_t() }],
        env,
        size_bounds: (0, 0),
        is_recursive: false,
    }
}

#[test]
fn test_fn_weakening_no_replacement() {
    let int_to_int = MachineType::FnType(FnType(vec![int_t()], Box::new(int_t())));
    let fn_def = weakening_fn_def(vec![bool_t(), int_to_int]);
    let referrer = WeakReferrer::new();
    let weak = referrer.weaken_fn_def(weakening_fn_def(vec![bool_t(), MachineType::FnType(FnType(vec![int_t()], Box::new(int_t())))]), &vec![(String::from("g"), 0)]);
    assert_eq!(fn_def.name, weak.name);
    assert_eq!(fn_def.arguments, weak.arguments);
    assert_eq!(fn_def.statements, weak.statements);
    assert_eq!(fn_def.ret, weak.ret);
    assert_eq!(fn_def.allocations, weak.allocations);
    assert_eq!(fn_def.env, weak.env);
}

#[test]
fn test_fn_weakening_replacement() {
    let unit_to_bool = || FnType(Vec::new(), Box::new(bool_t()));
    let int_to_int = || FnType(vec![int_t()], Box::new(int_t()));
    let fn_def = weakening_fn_def(vec![
        MachineType::FnType(unit_to_bool()),
        MachineType::FnType(unit_to_bool()),
        MachineType::FnType(int_to_int()),
    ]);
    let referrer = WeakReferrer::new();
    let weak = referrer.weaken_fn_def(fn_def, &vec![(String::from("f"), 1), (String::from("f"), 2)]);
    assert_eq!(weak.name, String::from("f"));
    assert_eq!(
        weak.env,
        vec![
            MachineType::FnType(unit_to_bool()),
            MachineType::WeakFnType(unit_to_bool()),
            MachineType::WeakFnType(int_to_int()),
        ]
    );
}

#[test]
fn weakening_leaves_non_function_types() {
    let referrer = WeakReferrer::new();
    let weak = referrer.weaken_fn_def(weakening_fn_def(vec![int_t()]), &vec![(String::from("f"), 0)]);
    assert_eq!(weak.env, vec![int_t()]);
}

#[test]
fn graph_records_references_closures_and_environments() {
    let statements = vec![
        Statement::Declaration(Declaration { type_: int_t(), memory: mem("x") }),
        assign("x", Expression::Value(Value::Memory(mem("y")))),
        assign(
            "t",
            Expression::TupleExpression(TupleExpression(vec![
                Value::Memory(mem("a")),
                Value::BuiltIn(BuiltIn::Integer(Integer { value: 1 })),
                Value::Memory(mem("b")),
            ])),
        ),
        assign(
            "c",
            Expression::ClosureInstantiation(ClosureInstantiation {
                name: String::from("F"),
                env: Some(Value::Memory(mem("t"))),
            }),
        ),
        assign("d", Expression::ClosureInstantiation(ClosureInstantiation { name: String::from("G"), env: None })),
        assign("x", Expression::Value(Value::Memory(mem("z")))),
    ];
    let referrer = WeakReferrer::new();
    let (graph, fns, translation) = referrer.construct_graph(&statements);
    assert_eq!(neighbours(&graph, "x"), vec![mem("y"), mem("z")]);
    assert_eq!(neighbours(&graph, "t"), vec![mem("a"), mem("b")]);
    assert_eq!(neighbours(&graph, "c"), vec![mem("t")]);
    assert_eq!(neighbours(&graph, "d"), Vec::new());
    assert_eq!(fns, vec![mem("c")]);
    assert_eq!(translation, vec![(mem("t"), String::from("F"))]);
}

#[test]
fn graph_merges_branches() {
    let statements = vec![Statement::IfStatement(IfStatement {
        condition: Value::Memory(mem("z")),
        branches: (
            vec![assign("x", Expression::Value(Value::Memory(mem("p"))))],
            vec![assign("x", Expression::Value(Value::Memory(mem("q"))))],
        ),
    })];
    let referrer = WeakReferrer::new();
    let (graph, fns, _) = referrer.construct_graph(&statements);
    assert_eq!(neighbours(&graph, "x"), vec![mem("q")]);
    assert!(fns.is_empty());
}

#[test]
fn transpose_reverses_every_edge() {
    let graph = vec![(mem("a"), vec![mem("b"), mem("c")]), (mem("b"), vec![mem("c")])];
    let referrer = WeakReferrer::new();
    let transpose = referrer.transpose(&graph);
    for (a, b) in [("b", "a"), ("c", "a"), ("c", "b")] {
        assert!(neighbours(&transpose, a).contains(&mem(b)));
    }
    assert!(!neighbours(&transpose, "a").contains(&mem("b")));
    assert!(neighbours(&transpose, "a").is_empty());
}

#[test]
fn topsort_visits_neighbours_before_the_node() {
    let mut referrer = WeakReferrer::new();
    referrer.graph = vec![(mem("a"), vec![mem("b"), mem("c")]), (mem("b"), vec![mem("c")]), (mem("c"), vec![mem("a")])];
    let mut visited = Vec::new();
    let mut order = Vec::new();
    referrer.topsort(&mem("a"), &mut visited, &mut order);
    assert_eq!(order, vec![mem("c"), mem("b"), mem("a")]);
    let mut visited_set = visited.clone();
    visited_set.sort();
    assert_eq!(visited_set, vec![mem("a"), mem("b"), mem("c")]);

    let mut order = Vec::new();
    referrer.topsort(&mem("b"), &mut visited, &mut order);
    assert_eq!(order, vec![mem("b")]);
}

fn tuple(target: &str, values: Vec<&str>) -> Statement {
    assign(target, Expression::TupleExpression(TupleExpression(values.into_iter().map(|v| Value::Memory(mem(v))).collect())))
}

fn closure(target: &str, name: &str, env: &str) -> Statement {
    assign(
        target,
        Expression::ClosureInstantiation(ClosureInstantiation {
            name: String::from(name),
            env: Some(Value::Memory(mem(env))),
        }),
    )
}

fn detected(statements: Vec<Statement>) -> (Vec<(Memory, String)>, std::collections::BTreeMap<Memory, Vec<Memory>>) {
    let mut referrer = WeakReferrer::new();
    let cycles = referrer.detect_closure_cycles(&statements);
    let mut translation = cycles.fn_translation;
    translation.sort();
    let mut table = std::collections::BTreeMap::new();
    for (node, members) in cycles.cycles {
        table.insert(node, members);
    }
    (translation, table)
}

fn translation(pairs: Vec<(&str, &str)>) -> Vec<(Memory, String)> {
    pairs.into_iter().map(|(m, n)| (mem(m), String::from(n))).collect()
}

fn table(groups: Vec<Vec<&str>>) -> std::collections::BTreeMap<Memory, Vec<Memory>> {
    let mut table = std::collections::BTreeMap::new();
    for group in groups {
        let members: Vec<Memory> = group.iter().map(|m| mem(m)).collect();
        for m in &group {
            table.insert(mem(m), members.clone());
        }
    }
    table
}

#[test]
fn detect_cycles_no_env() {
    let statements = vec![assign(
        "closure",
        Expression::ClosureInstantiation(ClosureInstantiation { name: String::from("f"), env: None }),
    )];
    assert_eq!(detected(statements), (translation(vec![]), table(vec![])));
}

#[test]
fn detect_cycles_no_cycles() {
    let statements = vec![
        Statement::Declaration(Declaration { memory: mem("env"), type_: int_t() }),
        tuple("env", vec!["x", "y"]),
        closure("closure", "f", "env"),
    ];
    assert_eq!(detected(statements), (translation(vec![("env", "f")]), table(vec![])));
}

#[test]
fn detect_cycles_self_cycle() {
    let statements = vec![tuple("env", vec!["x", "closure"]), closure("closure", "f", "env")];
    assert_eq!(detected(statements), (translation(vec![("env", "f")]), table(vec![vec!["closure"]])));
}

#[test]
fn detect_cycles_extra_self_cycle() {
    let statements = vec![
        tuple("env0", vec!["closure1"]),
        tuple("env1", vec!["closure1"]),
        closure("closure0", "f0", "env0"),
        closure("closure1", "f1", "env1"),
    ];
    assert_eq!(
        detected(statements),
        (translation(vec![("env0", "f0"), ("env1", "f1")]), table(vec![vec!["closure1"]]))
    );
}

#[test]
fn detect_cycles_three_cycle() {
    let statements = vec![
        tuple("env0", vec!["closure1"]),
        tuple("env1", vec!["closure2"]),
        tuple("env2", vec!["x", "closure0"]),
        closure("closure0", "f0", "env0"),
        closure("closure1", "f1", "env1"),
        closure("closure2", "f2", "env2"),
    ];
    assert_eq!(
        detected(statements),
        (
            translation(vec![("env0", "f0"), ("env1", "f1"), ("env2", "f2")]),
            table(vec![vec!["closure0", "closure1", "closure2"]])
        )
    );
}

#[test]
fn detect_cycles_two_cycle_triangle() {
    let statements = vec![
        tuple("env0", vec!["closure1", "closure2"]),
        tuple("env1", vec!["closure0", "closure2"]),
        tuple("env2", vec!["x"]),
        closure("closure0", "f0", "env0"),
        closure("closure1", "f1", "env1"),
        closure("closure2", "f2", "env2"),
    ];
    assert_eq!(
        detected(statements),
        (
            translation(vec![("env0", "f0"), ("env1", "f1"), ("env2", "f2")]),
            table(vec![vec!["closure0", "closure1"]])
        )
    );
}

#[test]
fn detect_cycles_overlapping_cycles() {
    let statements = vec![
        tuple("env0", vec!["closure1"]),
        tuple("env1", vec!["closure2", "closure3"]),
        tuple("env2", vec!["closure0"]),
        tuple("env3", vec!["closure0"]),
        closure("closure0", "f0", "env0"),
        closure("closure1", "f1", "env1"),
        closure("closure2", "f2", "env2"),
        closure("closure3", "f3", "env3"),
    ];
    assert_eq!(
        detected(statements),
        (
            translation(vec![("env0", "f0"), ("env1", "f1"), ("env2", "f2"), ("env3", "f3")]),
            table(vec![vec!["closure0", "closure1", "closure2", "closure3"]])
        )
    );
}

#[test]
fn detect_cycles_if_statement_cycle() {
    let statements = vec![
        Statement::IfStatement(IfStatement {
            condition: Value::Memory(mem("condition")),
            branches: (
                vec![
                    tuple("env0", vec!["closure1"]),
                    tuple("env1", vec!["closure0"]),
                    closure("closure0", "f0", "env0"),
                    closure("closure1", "f1", "env1"),
                ],
                Vec::new(),
            ),
        }),
    ];
    assert_eq!(
        detected(statements),
        (translation(vec![("env0", "f0"), ("env1", "f1")]), table(vec![vec!["closure0", "closure1"]]))
    );
}

fn declare(m: &str) -> Statement {
    Statement::Declaration(Declaration { memory: mem(m), type_: int_t() })
}

#[test]
fn allocations_come_before_the_first_declaration_of_a_cycle() {
    let statements = vec![
        declare("closure0"),
        declare("closure1"),
        tuple("env0", vec!["closure1"]),
        tuple("env1", vec!["x", "closure0"]),
        closure("closure0", "f0", "env0"),
        closure("closure1", "f1", "env1"),
    ];
    let mut referrer = WeakReferrer::new();
    let cycles = referrer.detect_closure_cycles(&statements);
    let (allocated, weak) = referrer.add_allocations(statements, &cycles);
    assert_eq!(allocated.len(), 7);
    assert_eq!(
        allocated[0],
        Statement::Allocation(Allocation {
            name: String::from("Allocatorclosure0"),
            fns: vec![(mem("closure0"), String::from("f0")), (mem("closure1"), String::from("f1"))],
            target: mem("allocator_closure0"),
        })
    );
    assert_eq!(allocated[1], declare("closure0"));
    assert_eq!(allocated[2], declare("closure1"));
    let mut weak = weak;
    weak.sort();
    weak.dedup();
    assert_eq!(weak, vec![(String::from("f0"), 0), (String::from("f1"), 1)]);
}

#[test]
fn a_closure_that_refers_to_itself_needs_no_allocator() {
    let statements = vec![
        declare("closure"),
        tuple("env", vec!["x", "closure"]),
        closure("closure", "f", "env"),
    ];
    let mut referrer = WeakReferrer::new();
    let cycles = referrer.detect_closure_cycles(&statements);
    let (allocated, weak) = referrer.add_allocations(statements, &cycles);
    assert_eq!(allocated.len(), 3);
    assert_eq!(allocated[0], declare("closure"));
    assert_eq!(weak, vec![(String::from("f"), 1)]);
}

#[test]
fn each_branch_allocates_its_own_cycles() {
    let inner = vec![
        declare("closure0"),
        tuple("env0", vec!["closure1"]),
        tuple("env1", vec!["closure0"]),
        closure("closure0", "f0", "env0"),
        closure("closure1", "f1", "env1"),
    ];
    let statements = vec![Statement::IfStatement(IfStatement {
        condition: Value::Memory(mem("condition")),
        branches: (inner, vec![declare("closure1")]),
    })];
    let mut referrer = WeakReferrer::new();
    let cycles = referrer.detect_closure_cycles(&statements);
    let (allocated, _) = referrer.add_allocations(statements, &cycles);
    match &allocated[0] {
        Statement::IfStatement(IfStatement { branches: (a, b), .. }) => {
            assert!(matches!(a[0], Statement::Allocation(_)));
            assert_eq!(a.len(), 6);
            assert!(matches!(b[0], Statement::Allocation(_)));
            assert_eq!(b[1], declare("closure1"));
        },
        _ => panic!("expected a conditional"),
    }
}

#[test]
fn transpose_keeps_repeated_edges_and_twice_restores_the_graph() {
    let referrer = WeakReferrer::new();
    let graph = vec![(mem("a"), vec![mem("b"), mem("b"), mem("c")]), (mem("d"), vec![])];
    let once = referrer.transpose(&graph);
    assert_eq!(neighbours(&once, "b"), vec![mem("a"), mem("a")]);
    assert_eq!(neighbours(&once, "c"), vec![mem("a")]);
    assert!(neighbours(&once, "a").is_empty());
    let twice = referrer.transpose(&once);
    let mut back = neighbours(&twice, "a");
    back.sort();
    assert_eq!(back, vec![mem("b"), mem("b"), mem("c")]);
    assert!(twice.iter().all(|(k, v)| k != &mem("d") && !v.is_empty()));
}
