use compilation::atoms::{AtomicTypeEnum, Boolean, Integer};
use compilation::emission::Emitter;
use compilation::machine::{
    Allocation, Assignment, AtomicType, Await, BuiltIn, ClosureInstantiation, ConstructorCall, Declaration,
    ElementAccess, Expression, FnCall, FnDef, FnType, IfStatement, MachineType, MatchBranch, MatchStatement, Memory,
    Program, Statement, TupleExpression, TupleType, TypeDef, UnionType, Value,
};

fn is_word(c: char) -> bool {
    c.is_ascii_alphanumeric() || c == '_'
}

/// Removes each run of white space that does not stand between two word characters.
fn normalize_code(code: &str) -> String {
    let chars: Vec<char> = code.chars().collect();
    let mut out = String::new();
    let mut i = 0;
    while i < chars.len() {
        if chars[i].is_whitespace() {
            let start = i;
            while i < chars.len() && chars[i].is_whitespace() {
                i += 1;
            }
            let before = if start > 0 { Some(chars[start - 1]) } else { None };
            let after = if i < chars.len() { Some(chars[i]) } else { None };
            let keep = matches!((before, after), (Some(b), Some(a)) if is_word(b) && is_word(a));
            if keep {
                out.extend(&chars[start..i]);
            }
        } else {
            out.push(chars[i]);
            i += 1;
        }
    }
    out
}

fn assert_eq_code(code: String, expected: &str) {
    assert_eq!(normalize_code(&code), normalize_code(expected));
}

fn name(s: &str) -> String {
    String::from(s)
}

fn mem(s: &str) -> Memory {
    Memory(String::from(s))
}

fn int_t() -> MachineType {
    MachineType::AtomicType(AtomicType(AtomicTypeEnum::INT))
}

fn boolean() -> MachineType {
    MachineType::AtomicType(AtomicType(AtomicTypeEnum::BOOL))
}

fn int_value(value: i64) -> Value {
    Value::BuiltIn(BuiltIn::Integer(Integer { value }))
}

fn bool_value(value: bool) -> Value {
    Value::BuiltIn(BuiltIn::Boolean(Boolean { value }))
}

fn assign(target: &str, value: Expression) -> Statement {
    Statement::Assignment(Assignment { target: mem(target), value })
}

fn plus(a: &str, b: &str) -> Expression {
    Expression::FnCall(FnCall {
        fn_: Value::BuiltIn(BuiltIn::BuiltInFn(name("Plus__BuiltIn"))),
        fn_type: FnType(vec![int_t(), int_t()], Box::new(int_t())),
        args: vec![Value::Memory(mem(a)), Value::Memory(mem(b))],
    })
}

#[test]
fn test_code_normalization() {
    assert_eq!(normalize_code("a = 3"), "a=3");
    assert_eq!(normalize_code("int x"), "int x");
    assert_eq!(normalize_code("\t3 + 4"), "3+4");
    assert_eq!(normalize_code("8+ 5 "), "8+5");
    assert_eq!(normalize_code("3\n4"), "3\n4");
    assert_eq!(normalize_code("3\n-8"), "3-8");
}

#[test]
fn test_type_emission() {
    let e = Emitter {};
    assert_eq_code(e.emit_type(&int_t()), "Int");
    assert_eq_code(e.emit_type(&boolean()), "Bool");
    assert_eq_code(e.emit_type(&MachineType::TupleType(TupleType(Vec::new()))), "TupleT<>");
    assert_eq_code(e.emit_type(&MachineType::TupleType(TupleType(vec![int_t()]))), "TupleT<Int>");
    assert_eq_code(e.emit_type(&MachineType::TupleType(TupleType(vec![int_t(), boolean()]))), "TupleT<Int,Bool>");
    assert_eq_code(
        e.emit_type(&MachineType::TupleType(TupleType(vec![
            MachineType::TupleType(TupleType(vec![int_t(), boolean()])),
            MachineType::TupleType(TupleType(Vec::new())),
        ]))),
        "TupleT<TupleT<Int,Bool>,TupleT<>>",
    );
    assert_eq_code(
        e.emit_type(&MachineType::FnType(FnType(Vec::new(), Box::new(MachineType::TupleType(TupleType(Vec::new())))))),
        "FnT<TupleT<>>",
    );
    assert_eq_code(e.emit_type(&MachineType::FnType(FnType(vec![int_t()], Box::new(int_t())))), "FnT<Int,Int>");
    assert_eq_code(
        e.emit_type(&MachineType::FnType(FnType(vec![int_t(), int_t()], Box::new(boolean())))),
        "FnT<Bool,Int,Int>",
    );
    assert_eq_code(
        e.emit_type(&MachineType::WeakFnType(FnType(vec![int_t(), int_t()], Box::new(boolean())))),
        "WeakFnT<Bool,Int,Int>",
    );
    assert_eq_code(
        e.emit_type(&MachineType::FnType(FnType(
            vec![MachineType::FnType(FnType(vec![int_t()], Box::new(boolean()))), int_t()],
            Box::new(boolean()),
        ))),
        "FnT<Bool,FnT<Bool,Int>,Int>",
    );
    assert_eq_code(
        e.emit_type(&MachineType::UnionType(UnionType(vec![name("Twoo"), name("Faws")]))),
        "VariantT<Twoo,Faws>",
    );
    assert_eq_code(e.emit_type(&MachineType::UnionType(UnionType(vec![name("Wrapper")]))), "VariantT<Wrapper>");
    assert_eq_code(e.emit_lazy_type(&int_t()), "LazyT<Int>");
}

#[test]
fn test_typedef_emissions() {
    let e = Emitter {};
    assert_eq_code(
        e.emit_type_defs(&vec![TypeDef {
            name: name("Bull"),
            constructors: vec![(name("Twoo"), None), (name("Faws"), None)],
        }]),
        "struct Twoo; struct Faws; typedef VariantT<Twoo, Faws> Bull; struct Twoo{ Empty value; }; struct Faws{ Empty value; };",
    );
    assert_eq_code(
        e.emit_type_defs(&vec![TypeDef {
            name: name("EitherIntBool"),
            constructors: vec![(name("Left_IntBool"), Some(int_t())), (name("Right_IntBool"), Some(boolean()))],
        }]),
        "struct Left_IntBool; struct Right_IntBool; typedef VariantT<Left_IntBool, Right_IntBool> EitherIntBool; struct Left_IntBool { using type = Int; LazyT<type> value; }; struct Right_IntBool { using type = Bool; LazyT<type> value; };",
    );
    assert_eq_code(
        e.emit_type_defs(&vec![TypeDef {
            name: name("ListInt"),
            constructors: vec![
                (
                    name("Cons_Int"),
                    Some(MachineType::TupleType(TupleType(vec![int_t(), MachineType::NamedType(name("ListInt"))]))),
                ),
                (name("Nil_Int"), None),
            ],
        }]),
        "struct Cons_Int; struct Nil_Int; typedef VariantT<Cons_Int, Nil_Int> ListInt; struct Cons_Int{ using type = TupleT<Int,ListInt>; LazyT<type> value;}; struct Nil_Int{ Empty value; };",
    );
}

#[test]
fn test_typedefs_emissions() {
    let e = Emitter {};
    let type_defs = vec![
        TypeDef {
            name: name("Expression"),
            constructors: vec![
                (name("Basic"), Some(int_t())),
                (
                    name("Complex"),
                    Some(MachineType::TupleType(TupleType(vec![
                        MachineType::NamedType(name("Value")),
                        MachineType::NamedType(name("Value")),
                    ]))),
                ),
            ],
        },
        TypeDef {
            name: name("Value"),
            constructors: vec![(name("None"), None), (name("Some"), Some(MachineType::NamedType(name("Expression"))))],
        },
    ];
    assert_eq_code(
        e.emit_type_defs(&type_defs),
        "struct Basic; struct Complex; struct None; struct Some; typedef VariantT<Basic,Complex> Expression; typedef VariantT<None,Some> Value; struct None{Empty value;}; struct Some { using type = Expression; LazyT<type> value; }; struct Basic { using type = Int; LazyT<type> value; }; struct Complex { using type = TupleT<Value, Value>; LazyT<type> value; };",
    );
}

#[test]
fn test_builtin_emission() {
    let e = Emitter {};
    assert_eq_code(e.emit_builtin(&BuiltIn::Integer(Integer { value: 24 })), "Int{24LL}");
    assert_eq_code(e.emit_builtin(&BuiltIn::Integer(Integer { value: -24 })), "Int{-24LL}");
    assert_eq_code(e.emit_builtin(&BuiltIn::Integer(Integer { value: 0 })), "Int{0LL}");
    assert_eq_code(e.emit_builtin(&BuiltIn::Integer(Integer { value: 10000000000009 })), "Int{10000000000009LL}");
    assert_eq_code(e.emit_builtin(&BuiltIn::Integer(Integer { value: i64::MIN })), "Int{-9223372036854775808LL}");
    assert_eq_code(e.emit_builtin(&BuiltIn::Boolean(Boolean { value: true })), "Bool{true}");
    assert_eq_code(e.emit_builtin(&BuiltIn::Boolean(Boolean { value: false })), "Bool{false}");
    assert_eq_code(
        e.emit_builtin(&BuiltIn::BuiltInFn(name("Plus__BuiltIn"))),
        "make_lazy<decltype(Plus__BuiltIn_G)>(Plus__BuiltIn_G)",
    );
    assert_eq_code(
        e.emit_builtin(&BuiltIn::BuiltInFn(name("Comparison_GE__BuiltIn"))),
        "make_lazy<decltype(Comparison_GE__BuiltIn_G)>(Comparison_GE__BuiltIn_G)",
    );
}

#[test]
fn test_memory_emission() {
    let e = Emitter {};
    assert_eq_code(e.emit_memory(&mem("x")), "x");
    assert_eq_code(e.emit_memory(&mem("bar")), "bar");
    assert_eq_code(e.emit_memory(&mem("baz")), "baz");
}

#[test]
fn test_value_type() {
    let e = Emitter {};
    assert_eq_code(e.emit_value_type(&Value::Memory(mem("baz"))), "decltype(baz)");
    assert_eq_code(
        e.emit_value_type(&Value::BuiltIn(BuiltIn::BuiltInFn(name("Comparison_LT__BuiltIn")))),
        "decltype(Comparison_LT__BuiltIn_G)",
    );
    assert_eq_code(e.emit_value_type(&int_value(-1)), "Int");
    assert_eq_code(e.emit_value_type(&bool_value(false)), "Bool");
}

#[test]
fn test_value_emission() {
    let e = Emitter {};
    assert_eq_code(e.emit_value(&Value::Memory(mem("baz"))), "baz");
    assert_eq_code(
        e.emit_value(&Value::BuiltIn(BuiltIn::BuiltInFn(name("Comparison_LT__BuiltIn")))),
        "make_lazy<decltype(Comparison_LT__BuiltIn_G)>(Comparison_LT__BuiltIn_G)",
    );
    assert_eq_code(e.emit_value(&int_value(-1)), "Int{-1LL}");
    assert_eq_code(e.emit_value_list(&vec![int_value(1), Value::Memory(mem("y"))]), "Int{1LL}, y");
}

#[test]
fn test_expression_emission() {
    let e = Emitter {};
    assert_eq_code(e.emit_expression(&Expression::Value(int_value(-1))), "Int{-1LL}");
    assert_eq_code(
        e.emit_expression(&Expression::ElementAccess(ElementAccess { value: Value::Memory(mem("tuple")), idx: 1 })),
        "std::get<1ULL>(tuple)",
    );
}

#[test]
fn test_assignment_emission() {
    let e = Emitter {};
    let none: Vec<Memory> = Vec::new();
    let cases: Vec<(Assignment, &str)> = vec![
        (Assignment { target: mem("x"), value: Expression::Value(int_value(5)) }, "auto x = Int{5LL};"),
        (
            Assignment {
                target: mem("x"),
                value: Expression::ElementAccess(ElementAccess { value: Value::Memory(mem("tuple")), idx: 0 }),
            },
            "auto x = std::get<0ULL>(tuple);",
        ),
        (Assignment { target: mem("y"), value: Expression::Value(bool_value(true)) }, "auto y = Bool{true};"),
        (Assignment { target: mem("call"), value: plus("arg1", "arg2") }, "auto call = Plus__BuiltIn(arg1, arg2);"),
        (
            Assignment {
                target: mem("res"),
                value: Expression::FnCall(FnCall {
                    fn_: Value::Memory(mem("call")),
                    args: Vec::new(),
                    fn_type: FnType(Vec::new(), Box::new(int_t())),
                }),
            },
            "auto res = fn_call(extract_lazy(call));",
        ),
        (
            Assignment {
                target: mem("call2"),
                value: Expression::FnCall(FnCall {
                    fn_: Value::Memory(mem("call1")),
                    args: vec![Value::Memory(mem("arg1")), Value::Memory(mem("arg2"))],
                    fn_type: FnType(vec![int_t(), int_t()], Box::new(int_t())),
                }),
            },
            "auto call2 = fn_call(extract_lazy(call1), arg1, arg2);",
        ),
        (
            Assignment { target: mem("e"), value: Expression::TupleExpression(TupleExpression(Vec::new())) },
            "auto e = std::make_tuple();",
        ),
        (
            Assignment { target: mem("t"), value: Expression::TupleExpression(TupleExpression(vec![int_value(5)])) },
            "auto t = std::make_tuple(Int{5LL});",
        ),
        (
            Assignment {
                target: mem("t"),
                value: Expression::TupleExpression(TupleExpression(vec![int_value(-4), Value::Memory(mem("y"))])),
            },
            "auto t = std::make_tuple(Int{-4LL},y);",
        ),
        (
            Assignment {
                target: mem("bull"),
                value: Expression::ConstructorCall(ConstructorCall { type_: name("Bull"), idx: 1, data: None }),
            },
            "auto bull = Bull{std::integral_constant<std::size_t,1>()};",
        ),
        (
            Assignment {
                target: mem("wrapper"),
                value: Expression::ConstructorCall(ConstructorCall {
                    type_: name("Wrapper"),
                    idx: 0,
                    data: Some((name("Wrapper"), int_value(4))),
                }),
            },
            "auto wrapper = Wrapper{std::integral_constant<std::size_t,0>(), Wrapper{ensure_lazy(Int{4LL})}};",
        ),
    ];
    for (assignment, expected) in cases {
        assert_eq_code(e.emit_assignment(&assignment, &none), expected);
    }
}

#[test]
fn assignment_to_declared_memory_stores_a_lazy_value() {
    let e = Emitter {};
    let declared = vec![mem("x")];
    assert_eq_code(
        e.emit_assignment(&Assignment { target: mem("x"), value: Expression::Value(int_value(5)) }, &declared),
        "x = ensure_lazy(Int{5LL});",
    );
}

fn emit_statements(statements: Vec<Statement>) -> String {
    Emitter {}.emit_statements(&statements, &Vec::new())
}

#[test]
fn test_await_statements_emission() {
    assert_eq_code(emit_statements(vec![Statement::Await(Await(vec![mem("z")]))]), "WorkManager::await(z);");
    assert_eq_code(
        emit_statements(vec![Statement::Await(Await(vec![mem("z"), mem("x")]))]),
        "WorkManager::await(z,x);",
    );
}

#[test]
fn test_if_statement_emission() {
    assert_eq_code(
        emit_statements(vec![
            Statement::Await(Await(vec![mem("z")])),
            Statement::Declaration(Declaration { type_: int_t(), memory: mem("x") }),
            Statement::IfStatement(IfStatement {
                condition: Value::Memory(mem("z")),
                branches: (
                    vec![assign("x", Expression::Value(int_value(1)))],
                    vec![assign("x", Expression::Value(int_value(-1)))],
                ),
            }),
        ]),
        "LazyT<Int> x; WorkManager::await(z); if (extract_lazy(z)) { x = ensure_lazy(Int{1LL}); } else { x = ensure_lazy(Int{-1LL}); }",
    );
}

#[test]
fn test_nested_if_statement_emission() {
    assert_eq_code(
        emit_statements(vec![
            Statement::Await(Await(vec![mem("z")])),
            Statement::Declaration(Declaration { type_: int_t(), memory: mem("x") }),
            Statement::Declaration(Declaration { type_: boolean(), memory: mem("r") }),
            Statement::IfStatement(IfStatement {
                condition: Value::Memory(mem("z")),
                branches: (
                    vec![
                        Statement::IfStatement(IfStatement {
                            condition: Value::Memory(mem("y")),
                            branches: (
                                vec![assign("x", Expression::Value(int_value(1)))],
                                vec![assign("x", Expression::Value(int_value(-1)))],
                            ),
                        }),
                        assign("r", Expression::Value(bool_value(true))),
                    ],
                    vec![
                        assign("x", Expression::Value(int_value(0))),
                        assign("r", Expression::Value(bool_value(false))),
                    ],
                ),
            }),
        ]),
        "LazyT<Int> x; LazyT<Bool> r; WorkManager::await(z); if (extract_lazy(z)) { if (extract_lazy(y)) { x = ensure_lazy(Int{1LL}); } else { x = ensure_lazy(Int{-1LL}); } r = ensure_lazy(Bool{true}); } else { x = ensure_lazy(Int{0LL}); r = ensure_lazy(Bool{false}); }",
    );
}

#[test]
fn test_closure_emission() {
    assert_eq_code(
        emit_statements(vec![assign(
            "closure",
            Expression::ClosureInstantiation(ClosureInstantiation { name: name("Closure"), env: None }),
        )]),
        "closure = make_lazy<remove_lazy_t<decltype(closure)>>(Closure::G);",
    );
    assert_eq_code(
        emit_statements(vec![assign(
            "closure",
            Expression::ClosureInstantiation(ClosureInstantiation {
                name: name("Adder"),
                env: Some(Value::Memory(mem("x"))),
            }),
        )]),
        "closure = setup_closure<Adder>(); std::dynamic_pointer_cast<ClosureFnT<remove_lazy_t<typename Adder::EnvT>,remove_shared_ptr_t<remove_lazy_t<decltype(closure)>>>>(closure->lvalue())->env = store_env<typename Adder::EnvT>(x);",
    );
}

#[test]
fn test_mutually_recursive_closure_emission() {
    let fn_type = || MachineType::FnType(FnType(vec![int_t()], Box::new(boolean())));
    assert_eq_code(
        emit_statements(vec![
            Statement::Declaration(Declaration { type_: fn_type(), memory: mem("is_odd_fn") }),
            Statement::Declaration(Declaration { type_: fn_type(), memory: mem("is_even_fn") }),
            Statement::Allocation(Allocation {
                name: name("Allocator"),
                target: mem("allocator"),
                fns: vec![(mem("is_odd_fn"), name("IsOdd")), (mem("is_even_fn"), name("IsEven"))],
            }),
            assign(
                "is_odd_fn",
                Expression::ClosureInstantiation(ClosureInstantiation {
                    name: name("IsOdd"),
                    env: Some(Value::Memory(mem("is_odd_env"))),
                }),
            ),
            assign(
                "is_even_fn",
                Expression::ClosureInstantiation(ClosureInstantiation {
                    name: name("IsEven"),
                    env: Some(Value::Memory(mem("is_even_env"))),
                }),
            ),
        ]),
        "LazyT<FnT<Bool, Int>> is_odd_fn; LazyT<FnT<Bool, Int>> is_even_fn; struct Allocator { ClosureFnT<remove_lazy_t<typename IsOdd::EnvT>,typename IsOdd::Fn> _0; ClosureFnT<remove_lazy_t<typename IsEven::EnvT>,typename IsEven::Fn> _1; }; std::shared_ptr<Allocator> allocator = std::make_shared<Allocator>(); is_odd_fn = setup_closure<IsOdd>(allocator,allocator->_0); is_even_fn = setup_closure<IsEven>(allocator,allocator->_1); std::dynamic_pointer_cast<ClosureFnT<remove_lazy_t<typename IsOdd::EnvT>,remove_shared_ptr_t<remove_lazy_t<decltype(is_odd_fn)>>>>(is_odd_fn->lvalue())->env = store_env<typename IsOdd::EnvT>(is_odd_env); std::dynamic_pointer_cast<ClosureFnT<remove_lazy_t<typename IsEven::EnvT>, remove_shared_ptr_t<remove_lazy_t<decltype(is_even_fn)>>>>( is_even_fn->lvalue())->env = store_env<typename IsEven::EnvT>(is_even_env);",
    );
}

#[test]
fn test_dual_allocator_emission() {
    assert_eq_code(
        emit_statements(vec![
            Statement::Declaration(Declaration {
                type_: MachineType::FnType(FnType(vec![int_t()], Box::new(int_t()))),
                memory: mem("f1"),
            }),
            Statement::Allocation(Allocation {
                name: name("alloc23"),
                fns: vec![(mem("f2"), name("F2")), (mem("f3"), name("F3"))],
                target: mem("a23"),
            }),
            Statement::Allocation(Allocation {
                name: name("alloc45"),
                fns: vec![(mem("f4"), name("F4")), (mem("f4"), name("F5"))],
                target: mem("a45"),
            }),
            assign(
                "f4",
                Expression::ClosureInstantiation(ClosureInstantiation {
                    name: name("F4"),
                    env: Some(Value::Memory(mem("f4_env"))),
                }),
            ),
            assign(
                "f1",
                Expression::ClosureInstantiation(ClosureInstantiation {
                    name: name("F1"),
                    env: Some(Value::Memory(mem("f1_env"))),
                }),
            ),
        ]),
        "LazyT<FnT<Int,Int>>f1; struct alloc23 { ClosureFnT<remove_lazy_t<typename F2::EnvT>,typename F2::Fn>_0; ClosureFnT<remove_lazy_t<typename F3::EnvT>,typename F3::Fn>_1; }; std::shared_ptr<alloc23>a23 = std::make_shared<alloc23>(); struct alloc45{ClosureFnT<remove_lazy_t<typename F4::EnvT>,typename F4::Fn> _0; ClosureFnT<remove_lazy_t<typename F5::EnvT>,typename F5::Fn> _1; }; std::shared_ptr<alloc45>a45 = std::make_shared<alloc45>(); f4 = setup_closure<F4>(a45,a45->_1); f1 = setup_closure<F1>(); std::dynamic_pointer_cast<ClosureFnT<remove_lazy_t<typename F4::EnvT>,remove_shared_ptr_t<remove_lazy_t<decltype(f4)>>>>(f4->lvalue())->env = store_env<typename F4::EnvT>(f4_env); std::dynamic_pointer_cast<ClosureFnT<remove_lazy_t<typename F1::EnvT>,remove_shared_ptr_t<remove_lazy_t<decltype(f1)>>>>(f1->lvalue())->env = store_env<typename F1::EnvT>(f1_env); ",
    );
}

#[test]
fn test_element_access_statements_emission() {
    assert_eq_code(
        emit_statements(vec![
            Statement::Await(Await(vec![mem("t")])),
            assign("x", Expression::ElementAccess(ElementAccess { value: Value::Memory(mem("tuple")), idx: 1 })),
        ]),
        "WorkManager::await(t); auto x = std::get<1ULL>(tuple);",
    );
    assert_eq_code(
        emit_statements(vec![assign(
            "f",
            Expression::ElementAccess(ElementAccess { value: Value::Memory(mem("env")), idx: 1 }),
        )]),
        "auto f = load_env(std::get<1ULL>(env));",
    );
    assert_eq_code(
        emit_statements(vec![assign(
            "tail",
            Expression::ElementAccess(ElementAccess { value: Value::Memory(mem("cons")), idx: 1 }),
        )]),
        "auto tail = std::get<1ULL>(cons);",
    );
}

#[test]
fn test_recursive_type_instantiation_emission() {
    assert_eq_code(
        emit_statements(vec![
            assign("n", Expression::ConstructorCall(ConstructorCall { type_: name("Nat"), idx: 1, data: None })),
            assign(
                "s",
                Expression::ConstructorCall(ConstructorCall {
                    type_: name("Nat"),
                    idx: 0,
                    data: Some((name("Suc"), Value::Memory(mem("n")))),
                }),
            ),
        ]),
        "auto n = Nat{std::integral_constant<std::size_t,1>()}; auto s = Nat{std::integral_constant<std::size_t,0>(), Suc{ensure_lazy(n)}};",
    );
}

#[test]
fn test_match_statement_no_values_emission() {
    assert_eq_code(
        emit_statements(vec![
            Statement::Await(Await(vec![mem("bull")])),
            Statement::Declaration(Declaration { type_: boolean(), memory: mem("r") }),
            Statement::MatchStatement(MatchStatement {
                expression: (Value::Memory(mem("bull")), UnionType(vec![name("Twoo"), name("Faws")])),
                auxiliary_memory: mem("tmp"),
                branches: vec![
                    MatchBranch { target: None, statements: vec![assign("r", Expression::Value(bool_value(true)))] },
                    MatchBranch { target: None, statements: vec![assign("r", Expression::Value(bool_value(false)))] },
                ],
            }),
        ]),
        "LazyT<Bool> r; WorkManager::await(bull); auto tmp = extract_lazy(bull); switch (tmp.tag) { case 0ULL: { r = ensure_lazy(Bool{true}); break; } case 1ULL: { r = ensure_lazy(Bool{false}); break; }}",
    );
}

#[test]
fn test_match_statement_read_values_emission() {
    assert_eq_code(
        emit_statements(vec![
            Statement::Declaration(Declaration { type_: int_t(), memory: mem("call") }),
            Statement::MatchStatement(MatchStatement {
                auxiliary_memory: mem("tmp"),
                expression: (Value::Memory(mem("either")), UnionType(vec![name("Left"), name("Right")])),
                branches: vec![
                    MatchBranch {
                        target: Some(mem("x")),
                        statements: vec![assign(
                            "call",
                            Expression::FnCall(FnCall {
                                fn_: Value::BuiltIn(BuiltIn::BuiltInFn(name("Comparison_GE__BuiltIn"))),
                                fn_type: FnType(vec![int_t(), int_t()], Box::new(boolean())),
                                args: vec![Value::Memory(mem("x")), Value::Memory(mem("y"))],
                            }),
                        )],
                    },
                    MatchBranch {
                        target: Some(mem("x")),
                        statements: vec![assign("call", Expression::Value(Value::Memory(mem("x"))))],
                    },
                ],
            }),
        ]),
        "LazyT<Int> call; auto tmp = extract_lazy(either); switch (tmp.tag) {case 0ULL: { LazyT<Left::type> x = reinterpret_cast<Left*>(&tmp.value)->value; call = ensure_lazy(Comparison_GE__BuiltIn(x,y)); break; } case 1ULL:{ LazyT<Right::type> x = reinterpret_cast<Right*>(&tmp.value)->value; call = ensure_lazy(x); break; }}",
    );
}

fn fn_def(
    name_: &str,
    env: Vec<MachineType>,
    arguments: Vec<(Memory, MachineType)>,
    statements: Vec<Statement>,
    ret: (Value, MachineType),
    size_bounds: (usize, usize),
    is_recursive: bool,
) -> FnDef {
    FnDef { name: name(name_), arguments, statements, ret, env, allocations: Vec::new(), size_bounds, is_recursive }
}

#[test]
fn test_fn_def_emission() {
    let e = Emitter {};
    assert_eq_code(
        e.emit_fn_def(&fn_def(
            "IdentityInt",
            Vec::new(),
            vec![(mem("x"), int_t())],
            Vec::new(),
            (Value::Memory(mem("x")), int_t()),
            (1, 1),
            false,
        )),
        "struct IdentityInt : TypedClosureI<Empty, Int, Int> { using TypedClosureI<Empty, Int, Int>::TypedClosureI; LazyT<Int> body(LazyT<Int> &x) override { return ensure_lazy(x); } constexpr std::size_t lower_size_bound() const override { return 1; }; constexpr std::size_t upper_size_bound() const override { return 1; }; constexpr bool is_recursive() const override { return false; }; static std::unique_ptr<TypedFnI<Int, Int>> init(const ArgsT &args) { return std::make_unique<IdentityInt>(args); } static inline FnT<Int,Int>G = std::make_shared<TypedClosureG<Empty,Int,Int>>(init);};",
    );
    assert_eq_code(
        e.emit_fn_def(&fn_def(
            "FourWayPlus",
            Vec::new(),
            vec![(mem("a"), int_t()), (mem("b"), int_t()), (mem("c"), int_t()), (mem("d"), int_t())],
            vec![assign("res1", plus("a", "b")), assign("res2", plus("c", "d")), assign("res3", plus("res1", "res2"))],
            (Value::Memory(mem("res3")), int_t()),
            (90, 90),
            false,
        )),
        "struct FourWayPlus : TypedClosureI<Empty, Int, Int, Int, Int, Int> { using TypedClosureI<Empty, Int, Int, Int, Int, Int>::TypedClosureI; LazyT<Int> body(LazyT<Int> &a, LazyT<Int> &b, LazyT<Int> &c, LazyT<Int> &d) override { auto res1 = Plus__BuiltIn(a, b); auto res2 = Plus__BuiltIn(c, d); auto res3 = Plus__BuiltIn(res1, res2); return ensure_lazy(res3); } constexpr std::size_t lower_size_bound() const override { return 90; }; constexpr std::size_t upper_size_bound() const override { return 90; }; constexpr bool is_recursive() const override { return false; }; static std::unique_ptr<TypedFnI<Int, Int, Int, Int, Int>> init(const ArgsT &args) { return std::make_unique<FourWayPlus>(args); } static inline FnT<Int,Int,Int,Int,Int>G = std::make_shared<TypedClosureG<Empty,Int,Int,Int,Int,Int>>(init);};",
    );
    assert_eq_code(
        e.emit_fn_def(&fn_def(
            "Adder",
            vec![int_t()],
            vec![(mem("x"), int_t())],
            vec![
                assign("y", Expression::ElementAccess(ElementAccess { idx: 0, value: Value::Memory(mem("env")) })),
                assign("inner_res", plus("x", "y")),
            ],
            (Value::Memory(mem("inner_res")), int_t()),
            (50, 80),
            false,
        )),
        "struct Adder : TypedClosureI<TupleT<Int>, Int, Int> { using TypedClosureI<TupleT<Int>, Int, Int>::TypedClosureI; LazyT<Int> body(LazyT<Int> &x) override { auto y = load_env(std::get<0ULL>(env)); auto inner_res = Plus__BuiltIn(x, y); return ensure_lazy(inner_res); } constexpr std::size_t lower_size_bound() const override { return 50; }; constexpr std::size_t upper_size_bound() const override { return 80; }; constexpr bool is_recursive() const override { return false; }; static std::unique_ptr<TypedFnI<Int, Int>> init(const ArgsT &args, const EnvT &env) { return std::make_unique<Adder>(args, env); }};",
    );
    let int_to_int = || FnType(vec![int_t()], Box::new(int_t()));
    assert_eq_code(
        e.emit_fn_def(&fn_def(
            "Apply",
            vec![int_t()],
            vec![(mem("f"), MachineType::FnType(int_to_int())), (mem("x"), int_t())],
            vec![assign(
                "y",
                Expression::FnCall(FnCall {
                    fn_: Value::Memory(mem("f")),
                    fn_type: int_to_int(),
                    args: vec![Value::Memory(mem("x"))],
                }),
            )],
            (Value::Memory(mem("y")), int_t()),
            (150, 150),
            true,
        )),
        "struct Apply : TypedClosureI<TupleT<Int>,Int,FnT<Int,Int>,Int>{ using TypedClosureI<TupleT<Int>,Int,FnT<Int,Int>,Int>::TypedClosureI; LazyT<Int> body(LazyT<FnT<Int,Int>> &f, LazyT<Int> &x) override { auto y = fn_call(extract_lazy(f),x); return ensure_lazy(y);} constexpr std::size_t lower_size_bound() const override {return 150;}; constexpr std::size_t upper_size_bound() const override {return 150;}; constexpr bool is_recursive() const override {return true;}; static std::unique_ptr<TypedFnI<Int,FnT<Int,Int>,Int>> init(const ArgsT&args,const EnvT&env) {return std::make_unique<Apply>(args,env);}};",
    );
}

#[test]
fn test_program_emission() {
    let program = Program {
        type_defs: vec![TypeDef { name: name("Bull"), constructors: vec![(name("Twoo"), None), (name("Faws"), None)] }],
        fn_defs: vec![
            fn_def(
                "Main",
                Vec::new(),
                Vec::new(),
                vec![assign("call", plus("x", "y"))],
                (Value::Memory(mem("call")), int_t()),
                (50, 50),
                false,
            ),
            fn_def(
                "PreMain",
                Vec::new(),
                Vec::new(),
                vec![
                    assign("x", Expression::Value(int_value(9))),
                    assign("y", Expression::Value(int_value(5))),
                    assign(
                        "main",
                        Expression::FnCall(FnCall {
                            fn_: Value::Memory(mem("Main")),
                            fn_type: FnType(Vec::new(), Box::new(int_t())),
                            args: Vec::new(),
                        }),
                    ),
                ],
                (Value::Memory(mem("main")), int_t()),
                (40, 60),
                false,
            ),
        ],
    };
    assert_eq_code(
        Emitter::emit(program),
        "#include \"main/include.hpp\" struct Twoo; struct Faws; typedef VariantT<Twoo,Faws>Bull; struct Twoo {Empty value;}; struct Faws {Empty value;}; struct Main : TypedClosureI<Empty,Int> {using TypedClosureI<Empty,Int>::TypedClosureI; LazyT<Int> body() override { auto call = Plus__BuiltIn(x,y); return ensure_lazy(call);} constexpr std::size_t lower_size_bound() const override { return 50; }; constexpr std::size_t upper_size_bound() const override { return 50; }; constexpr bool is_recursive() const override { return false; }; static std::unique_ptr<TypedFnI<Int>> init(const ArgsT &args) {return std::make_unique<Main>(args);} static inline FnT<Int>G = std::make_shared<TypedClosureG<Empty,Int>>(init);}; struct PreMain : TypedClosureI<Empty,Int> {using TypedClosureI<Empty,Int>::TypedClosureI; LazyT<Int> body() override { auto x = Int{9LL}; auto y = Int{5LL}; auto main = fn_call(extract_lazy(Main)); return ensure_lazy(main); } constexpr std::size_t lower_size_bound() const override { return 40; }; constexpr std::size_t upper_size_bound() const override { return 60; }; constexpr bool is_recursive() const override { return false; }; static std::unique_ptr<TypedFnI<Int>>init(const ArgsT&args) {return std::make_unique<PreMain>(args);} static inline FnT<Int> G = std::make_shared<TypedClosureG<Empty,Int>>(init);};",
    );
}
