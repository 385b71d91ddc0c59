use compilation::atoms::{AtomicTypeEnum, Integer};
use compilation::declarations::AllocationState;
use compilation::machine::{
    Assignment, AtomicType, BuiltIn, Declaration, Expression, FnCall, FnType, IfStatement, MachineType, MatchBranch,
    MatchStatement, Memory, Statement, UnionType, Value,
};

fn mem(s: &str) -> Memory {
    Memory(String::from(s))
}

fn int_t() -> MachineType {
    MachineType::AtomicType(AtomicType(AtomicTypeEnum::INT))
}

fn bool_t() -> MachineType {
    MachineType::AtomicType(AtomicType(AtomicTypeEnum::BOOL))
}

fn state_of(declarations: &Vec<(Memory, AllocationState)>, name: &str) -> Option<String> {
    declarations.iter().find(|(m, _)| m == &mem(name)).map(|(_, s)| match s {
        AllocationState::Undeclared(None) => String::from("undeclared"),
        AllocationState::Undeclared(Some(t)) => format!("undeclared {:?}", t),
        AllocationState::Declared(t) => format!("declared {:?}", t),
    })
}

fn declared(t: MachineType) -> String {
    format!("declared {:?}", t)
}

fn undeclared(t: MachineType) -> String {
    format!("undeclared {:?}", t)
}

fn assign(target: &str) -> Statement {
    Statement::Assignment(Assignment {
        target: mem(target),
        value: Expression::Value(Value::BuiltIn(BuiltIn::Integer(Integer { value: 1 }))),
    })
}

fn declare(memory: &str, type_: MachineType) -> Statement {
    Statement::Declaration(Declaration { memory: mem(memory), type_ })
}

#[test]
fn statements_declare_and_assign() {
    let call = Statement::Assignment(Assignment {
        target: mem("c"),
        value: Expression::FnCall(FnCall {
            fn_: Value::Memory(mem("f")),
            fn_type: FnType(vec![int_t()], Box::new(bool_t())),
            args: vec![Value::Memory(mem("x"))],
        }),
    });
    let declarations = Statement::declarations(&vec![declare("x", int_t()), assign("x"), assign("y"), call]);
    assert_eq!(declarations.len(), 3);
    assert_eq!(state_of(&declarations, "x"), Some(declared(int_t())));
    assert_eq!(state_of(&declarations, "y"), Some(String::from("undeclared")));
    assert_eq!(state_of(&declarations, "c"), Some(undeclared(bool_t())));
}

#[test]
fn a_later_declaration_takes_the_place_of_an_assignment() {
    let declarations = Statement::declarations(&vec![assign("x"), declare("x", bool_t())]);
    assert_eq!(declarations.len(), 1);
    assert_eq!(state_of(&declarations, "x"), Some(declared(bool_t())));
}

#[test]
fn branches_merge_their_declarations() {
    let if_ = Statement::IfStatement(IfStatement {
        condition: Value::Memory(mem("z")),
        branches: (vec![declare("a", int_t()), assign("b")], vec![assign("a"), declare("b", bool_t())]),
    });
    let declarations = if_.get_declarations();
    assert_eq!(state_of(&declarations, "a"), Some(declared(int_t())));
    assert_eq!(state_of(&declarations, "b"), Some(declared(bool_t())));

    let match_ = Statement::MatchStatement(MatchStatement {
        expression: (Value::Memory(mem("u")), UnionType(vec![String::from("A"), String::from("B")])),
        branches: vec![
            MatchBranch { target: None, statements: vec![assign("r")] },
            MatchBranch { target: Some(mem("v")), statements: vec![declare("s", int_t())] },
        ],
        auxiliary_memory: mem("tmp"),
    });
    let declarations = match_.get_declarations();
    assert_eq!(declarations.len(), 2);
    assert_eq!(state_of(&declarations, "r"), Some(String::from("undeclared")));
    assert_eq!(state_of(&declarations, "s"), Some(declared(int_t())));
}

#[test]
fn parallel_merge_keeps_shared_locations() {
    let first = vec![
        (mem("a"), AllocationState::Undeclared(None)),
        (mem("b"), AllocationState::Declared(int_t())),
        (mem("c"), AllocationState::Declared(bool_t())),
        (mem("d"), AllocationState::Undeclared(Some(int_t()))),
    ];
    let second = vec![
        (mem("b"), AllocationState::Undeclared(None)),
        (mem("a"), AllocationState::Undeclared(Some(bool_t()))),
        (mem("c"), AllocationState::Declared(int_t())),
        (mem("e"), AllocationState::Declared(int_t())),
    ];
    let merged = Statement::merge_declarations_parallel(first, second);
    assert_eq!(merged.len(), 3);
    assert_eq!(state_of(&merged, "a"), Some(undeclared(bool_t())));
    assert_eq!(state_of(&merged, "b"), Some(undeclared(int_t())));
    assert_eq!(state_of(&merged, "c"), Some(declared(bool_t())));
    assert_eq!(state_of(&merged, "d"), None);
}

#[test]
fn declared_locations_become_declarations() {
    let statements = Statement::from_declarations(vec![
        (mem("a"), AllocationState::Undeclared(None)),
        (mem("b"), AllocationState::Declared(int_t())),
        (mem("c"), AllocationState::Undeclared(Some(bool_t()))),
        (mem("d"), AllocationState::Declared(bool_t())),
    ]);
    assert_eq!(statements, vec![declare("b", int_t()), declare("d", bool_t())]);
}

#[test]
fn declarations_of_given_locations_are_removed() {
    let statements = vec![
        declare("a", int_t()),
        declare("b", bool_t()),
        assign("a"),
        Statement::IfStatement(IfStatement {
            condition: Value::Memory(mem("z")),
            branches: (vec![declare("a", int_t()), declare("c", int_t())], vec![declare("b", bool_t())]),
        }),
        Statement::MatchStatement(MatchStatement {
            expression: (Value::Memory(mem("u")), UnionType(vec![String::from("A")])),
            branches: vec![MatchBranch { target: None, statements: vec![declare("a", int_t()), assign("c")] }],
            auxiliary_memory: mem("tmp"),
        }),
    ];
    let kept = Statement::remove_declarations(statements, &vec![mem("a"), mem("b")]);
    let expected = || {
        vec![
            assign("a"),
            Statement::IfStatement(IfStatement {
                condition: Value::Memory(mem("z")),
                branches: (vec![declare("c", int_t())], Vec::new()),
            }),
            Statement::MatchStatement(MatchStatement {
                expression: (Value::Memory(mem("u")), UnionType(vec![String::from("A")])),
                branches: vec![MatchBranch { target: None, statements: vec![assign("c")] }],
                auxiliary_memory: mem("tmp"),
            }),
        ]
    };
    assert_eq!(kept, expected());
    assert_eq!(Statement::remove_declarations(kept, &vec![mem("a"), mem("b")]), expected());
    assert_eq!(declare("x", int_t()).maybe_remove_declaration(&vec![mem("x")]), None);
    assert_eq!(declare("x", int_t()).maybe_remove_declaration(&vec![mem("y")]), Some(declare("x", int_t())));
}
