use compilation::atoms::{AtomicTypeEnum, Boolean, Integer};
use compilation::compiler::Compiler;
use compilation::intermediate::{
    AtomicType as IAtomicType, BuiltInFn, IntermediateArg, IntermediateAssignment, IntermediateBlock,
    IntermediateBuiltIn, IntermediateCtorCall, IntermediateElementAccess, IntermediateExpression,
    IntermediateFnCall, IntermediateFnType, IntermediateLambda, IntermediateMemory, IntermediateProgram,
    IntermediateStatement, IntermediateTupleExpression, IntermediateTupleType, IntermediateType,
    IntermediateUnionType, IntermediateValue, Location,
};
use compilation::machine::{
    Assignment, AtomicType, Await, BuiltIn, ClosureInstantiation, ConstructorCall, Declaration, ElementAccess,
    Expression, FnCall, FnDef, FnType, MachineType, Memory, Statement, TupleExpression, TupleType, TypeDef,
    UnionType, Value,
};

fn int_t() -> IntermediateType {
    IntermediateType::AtomicType(IAtomicType(AtomicTypeEnum::INT))
}

fn boolean() -> IntermediateType {
    IntermediateType::AtomicType(IAtomicType(AtomicTypeEnum::BOOL))
}

fn fn_type(args: Vec<IntermediateType>, ret: IntermediateType) -> IntermediateFnType {
    IntermediateFnType(args, Box::new(ret))
}

fn arg(type_: IntermediateType, location: usize) -> IntermediateArg {
    IntermediateArg { type_, location: Location(location) }
}

fn memory(type_: IntermediateType, location: usize) -> IntermediateMemory {
    IntermediateMemory { type_, location: Location(location) }
}

fn m_int() -> MachineType {
    MachineType::AtomicType(AtomicType(AtomicTypeEnum::INT))
}

fn m_bool() -> MachineType {
    MachineType::AtomicType(AtomicType(AtomicTypeEnum::BOOL))
}

fn mem(name: &str) -> Memory {
    Memory(String::from(name))
}

fn int_value(value: i64) -> IntermediateValue {
    IntermediateValue::IntermediateBuiltIn(IntermediateBuiltIn::Integer(Integer { value }))
}

#[test]
fn test_compile_multiple_memory_locations() {
    let locations = vec![Location(0), Location(1), Location(2)];
    let mut compiler = Compiler::new();
    let value_0 = compiler.compile_location(&locations[0].clone());
    let value_1 = compiler.compile_location(&locations[1].clone());
    let value_2 = compiler.compile_location(&locations[2].clone());
    assert_ne!(value_0, value_1);
    assert_ne!(value_2, value_1);
    assert_ne!(value_2, value_0);

    assert_eq!(value_0, compiler.compile_location(&locations[0].clone()));
    assert_eq!(value_1, compiler.compile_location(&locations[1].clone()));
    assert_eq!(value_2, compiler.compile_location(&locations[2].clone()));
}

#[test]
fn test_compile_arguments() {
    let types: Vec<IntermediateType> = vec![int_t(), boolean(), int_t()];
    let mut compiler = Compiler::new();

    let args: Vec<IntermediateArg> =
        types.into_iter().enumerate().map(|(i, type_)| arg(type_, i)).collect();
    let value_0 = compiler.compile_value(&IntermediateValue::IntermediateArg(args[0].clone()));
    let value_1 = compiler.compile_value(&IntermediateValue::IntermediateArg(args[1].clone()));
    let value_2 = compiler.compile_value(&IntermediateValue::IntermediateArg(args[2].clone()));
    assert_ne!(value_0, value_1);
    assert_ne!(value_2, value_1);
    assert_ne!(value_2, value_0);

    assert_eq!(value_0, compiler.compile_value(&IntermediateValue::IntermediateArg(args[0].clone())));
    assert_eq!(value_1, compiler.compile_value(&IntermediateValue::IntermediateArg(args[1].clone())));
    assert_eq!(value_2, compiler.compile_value(&IntermediateValue::IntermediateArg(args[2].clone())));
}

#[test]
fn compiled_locations_are_numbered_in_order_of_first_use() {
    let mut compiler = Compiler::new();
    assert_eq!(compiler.compile_location(&Location(7)), mem("m0"));
    assert_eq!(compiler.compile_location(&Location(3)), mem("m1"));
    assert_eq!(compiler.compile_location(&Location(7)), mem("m0"));
    assert_eq!(compiler.new_memory_location(), mem("m2"));
    assert_eq!(compiler.compile_location(&Location(9)), mem("m3"));
}

#[test]
fn compile_empty_type_defs() {
    let mut compiler = Compiler::new();
    assert_eq!(compiler.compile_type_defs(Vec::new()), Vec::new());
}

#[test]
fn compile_non_recursive_union_type_defs() {
    let mut compiler = Compiler::new();
    let types = vec![
        IntermediateType::IntermediateUnionType(IntermediateUnionType(vec![None, None])),
        IntermediateType::IntermediateUnionType(IntermediateUnionType(vec![Some(int_t()), None])),
    ];
    assert_eq!(
        compiler.compile_type_defs(types),
        vec![
            TypeDef {
                name: String::from("T0"),
                constructors: vec![(String::from("T0C0"), None), (String::from("T0C1"), None)],
            },
            TypeDef {
                name: String::from("T1"),
                constructors: vec![(String::from("T1C0"), Some(m_int())), (String::from("T1C1"), None)],
            },
        ]
    );
}

#[test]
fn compile_recursive_union_type_defs() {
    let mut compiler = Compiler::new();
    let types = vec![
        IntermediateType::IntermediateUnionType(IntermediateUnionType(vec![
            Some(IntermediateType::Reference(0)),
            None,
        ])),
        IntermediateType::IntermediateUnionType(IntermediateUnionType(vec![
            Some(IntermediateType::IntermediateTupleType(IntermediateTupleType(vec![
                IntermediateType::Reference(1),
                int_t(),
            ]))),
            None,
        ])),
    ];
    assert_eq!(
        compiler.compile_type_defs(types),
        vec![
            TypeDef {
                name: String::from("T0"),
                constructors: vec![
                    (String::from("T0C0"), Some(MachineType::NamedType(String::from("T0")))),
                    (String::from("T0C1"), None),
                ],
            },
            TypeDef {
                name: String::from("T1"),
                constructors: vec![
                    (
                        String::from("T1C0"),
                        Some(MachineType::TupleType(TupleType(vec![
                            MachineType::NamedType(String::from("T1")),
                            m_int(),
                        ]))),
                    ),
                    (String::from("T1C1"), None),
                ],
            },
        ]
    );
}

#[test]
fn compile_mixed_type_defs() {
    let mut compiler = Compiler::new();
    let types = vec![
        IntermediateType::IntermediateTupleType(IntermediateTupleType(vec![int_t(), int_t()])),
        IntermediateType::IntermediateUnionType(IntermediateUnionType(vec![Some(int_t()), Some(boolean())])),
    ];
    assert_eq!(
        compiler.compile_type_defs(types),
        vec![TypeDef {
            name: String::from("T0"),
            constructors: vec![(String::from("T0C0"), Some(m_int())), (String::from("T0C1"), Some(m_bool()))],
        }]
    );
}

#[test]
fn compile_builtin_values() {
    let mut compiler = Compiler::new();
    assert_eq!(
        compiler.compile_value(&int_value(4)),
        Value::BuiltIn(BuiltIn::Integer(Integer { value: 4 }))
    );
    assert_eq!(
        compiler.compile_value(&IntermediateValue::IntermediateBuiltIn(IntermediateBuiltIn::Boolean(Boolean {
            value: true
        }))),
        Value::BuiltIn(BuiltIn::Boolean(Boolean { value: true }))
    );
    let equals = IntermediateBuiltIn::BuiltInFn(BuiltInFn(String::from("=="), fn_type(vec![int_t(), int_t()], boolean())));
    assert_eq!(
        compiler.compile_value(&IntermediateValue::IntermediateBuiltIn(equals)),
        Value::BuiltIn(BuiltIn::BuiltInFn(String::from("Comparison_EQ__BuiltIn")))
    );
}

#[test]
fn compile_memory_and_argument_values() {
    let mut compiler = Compiler::new();
    assert_eq!(
        compiler.compile_value(&IntermediateValue::IntermediateMemory(memory(int_t(), 0))),
        Value::Memory(mem("m0"))
    );
    let mut compiler = Compiler::new();
    assert_eq!(
        compiler.compile_value(&IntermediateValue::IntermediateArg(arg(int_t(), 5))),
        Value::Memory(mem("m0"))
    );
}

#[test]
fn compile_tuple_and_access_expressions() {
    let mut compiler = Compiler::new();
    let (statements, expression, _) = compiler.compile_expression(&IntermediateExpression::IntermediateTupleExpression(
        IntermediateTupleExpression(Vec::new()),
    ));
    assert_eq!(statements, Vec::new());
    assert_eq!(expression, Expression::TupleExpression(TupleExpression(Vec::new())));

    let mut compiler = Compiler::new();
    let (statements, expression, _) = compiler.compile_expression(&IntermediateExpression::IntermediateTupleExpression(
        IntermediateTupleExpression(vec![IntermediateValue::IntermediateArg(arg(int_t(), 0))]),
    ));
    assert_eq!(statements, Vec::new());
    assert_eq!(expression, Expression::TupleExpression(TupleExpression(vec![Value::Memory(mem("m0"))])));

    let mut compiler = Compiler::new();
    let pair = IntermediateType::IntermediateTupleType(IntermediateTupleType(vec![int_t(), boolean()]));
    let (statements, expression, _) =
        compiler.compile_expression(&IntermediateExpression::IntermediateElementAccess(IntermediateElementAccess {
            value: IntermediateValue::IntermediateArg(arg(pair, 0)),
            idx: 1,
        }));
    assert_eq!(statements, Vec::new());
    assert_eq!(expression, Expression::ElementAccess(ElementAccess { value: Value::Memory(mem("m0")), idx: 1 }));
}

#[test]
fn compile_builtin_fn_call() {
    let mut compiler = Compiler::new();
    let increment = IntermediateBuiltIn::BuiltInFn(BuiltInFn(String::from("++"), fn_type(vec![int_t()], int_t())));
    let (statements, expression, _) = compiler.compile_expression(&IntermediateExpression::IntermediateFnCall(
        IntermediateFnCall { fn_: IntermediateValue::IntermediateBuiltIn(increment), args: vec![int_value(7)] },
    ));
    assert_eq!(statements, Vec::new());
    assert_eq!(
        expression,
        Expression::FnCall(FnCall {
            fn_: Value::BuiltIn(BuiltIn::BuiltInFn(String::from("Increment__BuiltIn"))),
            fn_type: FnType(vec![m_int()], Box::new(m_int())),
            args: vec![Value::BuiltIn(BuiltIn::Integer(Integer { value: 7 }))],
        })
    );
}

#[test]
fn compile_higher_order_call_awaits_the_function() {
    let mut compiler = Compiler::new();
    let f = arg(IntermediateType::IntermediateFnType(fn_type(vec![int_t()], boolean())), 0);
    let (statements, expression, _) = compiler.compile_expression(&IntermediateExpression::IntermediateFnCall(
        IntermediateFnCall {
            fn_: IntermediateValue::IntermediateArg(f),
            args: vec![IntermediateValue::IntermediateArg(arg(int_t(), 1))],
        },
    ));
    assert_eq!(statements, vec![Statement::Await(Await(vec![mem("m0")]))]);
    assert_eq!(
        expression,
        Expression::FnCall(FnCall {
            fn_: Value::Memory(mem("m0")),
            fn_type: FnType(vec![m_int()], Box::new(m_bool())),
            args: vec![Value::Memory(mem("m1"))],
        })
    );
}

#[test]
fn compile_constructor_calls() {
    let mut compiler = Compiler::new();
    let union = IntermediateUnionType(vec![Some(boolean()), Some(int_t())]);
    compiler.compile_type_defs(vec![IntermediateType::IntermediateUnionType(union.clone())]);
    let (statements, expression, _) = compiler.compile_expression(&IntermediateExpression::IntermediateCtorCall(
        IntermediateCtorCall { idx: 1, data: Some(int_value(9)), type_: union },
    ));
    assert_eq!(statements, Vec::new());
    assert_eq!(
        expression,
        Expression::ConstructorCall(ConstructorCall {
            type_: String::from("T0"),
            idx: 1,
            data: Some((String::from("T0C1"), Value::BuiltIn(BuiltIn::Integer(Integer { value: 9 })))),
        })
    );
}

fn assignment(location: usize, expression: IntermediateExpression) -> IntermediateStatement {
    IntermediateStatement::IntermediateAssignment(IntermediateAssignment { expression, location: Location(location) })
}

#[test]
fn compile_tuple_assignment() {
    let mut compiler = Compiler::new();
    let (statements, _) = compiler.compile_statements(&vec![assignment(
        0,
        IntermediateExpression::IntermediateTupleExpression(IntermediateTupleExpression(vec![
            int_value(5),
            IntermediateValue::IntermediateBuiltIn(IntermediateBuiltIn::Boolean(Boolean { value: false })),
        ])),
    )]);
    assert_eq!(
        statements,
        vec![
            Statement::Declaration(Declaration {
                memory: mem("m0"),
                type_: MachineType::TupleType(TupleType(vec![m_int(), m_bool()])),
            }),
            Statement::Assignment(Assignment {
                target: mem("m0"),
                value: Expression::TupleExpression(TupleExpression(vec![
                    Value::BuiltIn(BuiltIn::Integer(Integer { value: 5 })),
                    Value::BuiltIn(BuiltIn::Boolean(Boolean { value: false })),
                ])),
            }),
        ]
    );
}

#[test]
fn compile_identity_call_program() {
    let identity_type = IntermediateType::IntermediateFnType(fn_type(vec![int_t()], int_t()));
    let main_type = IntermediateType::IntermediateFnType(fn_type(Vec::new(), int_t()));
    let identity = memory(identity_type, 0);
    let main = memory(main_type, 1);
    let main_call = memory(int_t(), 2);
    let y = memory(int_t(), 3);
    let x = arg(int_t(), 4);
    let program = IntermediateProgram {
        main: IntermediateLambda {
            args: Vec::new(),
            block: IntermediateBlock {
                ret: IntermediateValue::IntermediateMemory(main_call.clone()),
                statements: vec![
                    assignment(
                        0,
                        IntermediateExpression::IntermediateLambda(IntermediateLambda {
                            args: vec![x.clone()],
                            block: IntermediateBlock {
                                statements: Vec::new(),
                                ret: IntermediateValue::IntermediateArg(x.clone()),
                            },
                        }),
                    ),
                    assignment(
                        1,
                        IntermediateExpression::IntermediateLambda(IntermediateLambda {
                            args: Vec::new(),
                            block: IntermediateBlock {
                                statements: vec![assignment(
                                    3,
                                    IntermediateExpression::IntermediateFnCall(IntermediateFnCall {
                                        fn_: IntermediateValue::IntermediateMemory(identity.clone()),
                                        args: vec![int_value(0)],
                                    }),
                                )],
                                ret: IntermediateValue::IntermediateMemory(y.clone()),
                            },
                        }),
                    ),
                    assignment(
                        2,
                        IntermediateExpression::IntermediateFnCall(IntermediateFnCall {
                            fn_: IntermediateValue::IntermediateMemory(main.clone()),
                            args: Vec::new(),
                        }),
                    ),
                ],
            },
        },
        types: Vec::new(),
    };
    let int_to_int = || FnType(vec![m_int()], Box::new(m_int()));
    let compiled = Compiler::compile(program);
    assert_eq!(compiled.type_defs, Vec::new());
    assert_eq!(
        compiled.fn_defs,
        vec![
            FnDef {
                name: String::from("F0"),
                arguments: vec![(mem("m0"), m_int())],
                statements: Vec::new(),
                ret: (Value::Memory(mem("m0")), m_int()),
                env: Vec::new(),
                allocations: Vec::new(),
                size_bounds: (0, 0),
                is_recursive: false,
            },
            FnDef {
                name: String::from("F1"),
                arguments: Vec::new(),
                statements: vec![
                    Statement::Declaration(Declaration {
                        type_: MachineType::FnType(int_to_int()),
                        memory: mem("m2"),
                    }),
                    Statement::Assignment(Assignment {
                        target: mem("m2"),
                        value: Expression::ElementAccess(ElementAccess { value: Value::Memory(mem("env")), idx: 0 }),
                    }),
                    Statement::Await(Await(vec![mem("m2")])),
                    Statement::Assignment(Assignment {
                        target: mem("m3"),
                        value: Expression::FnCall(FnCall {
                            fn_: Value::Memory(mem("m2")),
                            fn_type: int_to_int(),
                            args: vec![Value::BuiltIn(BuiltIn::Integer(Integer { value: 0 }))],
                        }),
                    }),
                ],
                ret: (Value::Memory(mem("m3")), m_int()),
                env: vec![MachineType::FnType(int_to_int())],
                allocations: vec![Declaration { type_: m_int(), memory: mem("m3") }],
                size_bounds: (0, 0),
                is_recursive: false,
            },
            FnDef {
                name: String::from("Main"),
                arguments: Vec::new(),
                statements: vec![
                    Statement::Declaration(Declaration { type_: MachineType::FnType(int_to_int()), memory: mem("m1") }),
                    Statement::Assignment(Assignment {
                        target: mem("m1"),
                        value: Expression::ClosureInstantiation(ClosureInstantiation {
                            name: String::from("F0"),
                            env: None,
                        }),
                    }),
                    Statement::Declaration(Declaration {
                        type_: MachineType::TupleType(TupleType(vec![MachineType::FnType(int_to_int())])),
                        memory: mem("m4"),
                    }),
                    Statement::Assignment(Assignment {
                        target: mem("m4"),
                        value: Expression::TupleExpression(TupleExpression(vec![Value::Memory(mem("m1"))])),
                    }),
                    Statement::Declaration(Declaration {
                        type_: MachineType::FnType(FnType(Vec::new(), Box::new(m_int()))),
                        memory: mem("m5"),
                    }),
                    Statement::Assignment(Assignment {
                        target: mem("m5"),
                        value: Expression::ClosureInstantiation(ClosureInstantiation {
                            name: String::from("F1"),
                            env: Some(Value::Memory(mem("m4"))),
                        }),
                    }),
                    Statement::Await(Await(vec![mem("m5")])),
                    Statement::Assignment(Assignment {
                        target: mem("m6"),
                        value: Expression::FnCall(FnCall {
                            fn_: Value::Memory(mem("m5")),
                            fn_type: FnType(Vec::new(), Box::new(m_int())),
                            args: Vec::new(),
                        }),
                    }),
                ],
                ret: (Value::Memory(mem("m6")), m_int()),
                env: Vec::new(),
                allocations: vec![Declaration { type_: m_int(), memory: mem("m6") }],
                size_bounds: (0, 0),
                is_recursive: false,
            },
        ]
    );
}

#[test]
fn union_types_compile_to_their_constructor_names() {
    let mut compiler = Compiler::new();
    let union = IntermediateUnionType(vec![None, Some(int_t())]);
    compiler.compile_type_defs(vec![
        IntermediateType::AtomicType(IAtomicType(AtomicTypeEnum::INT)),
        IntermediateType::IntermediateUnionType(union.clone()),
    ]);
    assert_eq!(
        compiler.compile_type(&IntermediateType::IntermediateUnionType(union)),
        MachineType::UnionType(UnionType(vec![String::from("T0C0"), String::from("T0C1")]))
    );
    assert_eq!(compiler.compile_type(&IntermediateType::Reference(1)), MachineType::NamedType(String::from("T0")));
}

#[test]
fn compile_references_to_aliases_by_their_content() {
    let mut compiler = Compiler::new();
    let types = vec![
        IntermediateType::IntermediateTupleType(IntermediateTupleType(vec![int_t(), boolean()])),
        IntermediateType::IntermediateUnionType(IntermediateUnionType(vec![
            Some(IntermediateType::Reference(0)),
            Some(IntermediateType::Reference(2)),
            None,
        ])),
        IntermediateType::IntermediateTupleType(IntermediateTupleType(vec![int_t(), IntermediateType::Reference(1)])),
    ];
    assert_eq!(
        compiler.compile_type_defs(types),
        vec![TypeDef {
            name: String::from("T0"),
            constructors: vec![
                (String::from("T0C0"), Some(MachineType::TupleType(TupleType(vec![m_int(), m_bool()])))),
                (
                    String::from("T0C1"),
                    Some(MachineType::TupleType(TupleType(vec![m_int(), MachineType::NamedType(String::from("T0"))]))),
                ),
                (String::from("T0C2"), None),
            ],
        }]
    );
    assert_eq!(
        compiler.compile_type(&IntermediateType::Reference(2)),
        MachineType::TupleType(TupleType(vec![m_int(), MachineType::NamedType(String::from("T0"))]))
    );
}
