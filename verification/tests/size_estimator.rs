use compilation::atoms::{AtomicTypeEnum, Boolean, Integer};
use compilation::code_size::code_size_constants;
use compilation::intermediate::{
    AtomicType, BuiltInFn, IntermediateArg, IntermediateAssignment, IntermediateBlock, IntermediateBuiltIn,
    IntermediateCtorCall, IntermediateElementAccess, IntermediateExpression, IntermediateFnCall, IntermediateFnType,
    IntermediateIf, IntermediateLambda, IntermediateMatch, IntermediateMatchBranch, IntermediateMemory,
    IntermediateStatement, IntermediateTupleExpression, IntermediateTupleType, IntermediateType,
    IntermediateUnionType, IntermediateValue, Location,
};
use compilation::size_estimator::CodeSizeEstimator;

fn int_t() -> IntermediateType {
    IntermediateType::AtomicType(AtomicType(AtomicTypeEnum::INT))
}

fn bool_t() -> IntermediateType {
    IntermediateType::AtomicType(AtomicType(AtomicTypeEnum::BOOL))
}

fn arg(type_: IntermediateType, location: usize) -> IntermediateValue {
    IntermediateValue::IntermediateArg(IntermediateArg { type_, location: Location(location) })
}

fn memory(type_: IntermediateType, location: usize) -> IntermediateValue {
    IntermediateValue::IntermediateMemory(IntermediateMemory { type_, location: Location(location) })
}

fn int_value(value: i64) -> IntermediateValue {
    IntermediateValue::IntermediateBuiltIn(IntermediateBuiltIn::Integer(Integer { value }))
}

fn operator(name: &str, args: Vec<IntermediateType>, ret: IntermediateType) -> IntermediateValue {
    IntermediateValue::IntermediateBuiltIn(IntermediateBuiltIn::BuiltInFn(BuiltInFn(
        String::from(name),
        IntermediateFnType(args, Box::new(ret)),
    )))
}

fn op_size(name: &str) -> usize {
    code_size_constants().operators.iter().find(|(k, _)| k == name).map(|(_, v)| *v).unwrap()
}

fn assignment(location: usize, expression: IntermediateExpression) -> IntermediateStatement {
    IntermediateStatement::IntermediateAssignment(IntermediateAssignment { expression, location: Location(location) })
}

fn statement_lower(statement: &IntermediateStatement) -> usize {
    CodeSizeEstimator::statement_size(statement).0
}

#[test]
fn test_value_size() {
    let c = code_size_constants();
    assert_eq!(
        CodeSizeEstimator::value_size(&IntermediateValue::IntermediateBuiltIn(IntermediateBuiltIn::Boolean(Boolean {
            value: true
        }))),
        c.builtin_bool
    );
    assert_eq!(CodeSizeEstimator::value_size(&int_value(5)), c.builtin_int);
    assert_eq!(CodeSizeEstimator::value_size(&operator("+", vec![int_t(), int_t()], int_t())), c.builtin_fn);
    assert_eq!(CodeSizeEstimator::value_size(&arg(int_t(), 0)), c.memory_access);
    assert_eq!(CodeSizeEstimator::value_size(&memory(bool_t(), 1)), c.memory_access);
}

#[test]
fn test_expression_size() {
    let c = code_size_constants();
    let size = |e: IntermediateExpression| CodeSizeEstimator::expression_size(&e);
    assert_eq!(size(IntermediateExpression::IntermediateTupleExpression(IntermediateTupleExpression(Vec::new()))), c.tuple_expression);
    assert_eq!(
        size(IntermediateExpression::IntermediateTupleExpression(IntermediateTupleExpression(vec![
            memory(bool_t(), 0),
            int_value(43)
        ]))),
        c.tuple_expression + c.builtin_int + c.memory_access
    );
    let pair = IntermediateType::IntermediateTupleType(IntermediateTupleType(vec![bool_t(), int_t()]));
    assert_eq!(
        size(IntermediateExpression::IntermediateElementAccess(IntermediateElementAccess {
            idx: 1,
            value: memory(pair, 0)
        })),
        c.element_access + c.memory_access
    );
    assert_eq!(size(IntermediateExpression::IntermediateValue(int_value(-27))), c.value_expression + c.builtin_int);
    let f = IntermediateType::IntermediateFnType(IntermediateFnType(Vec::new(), Box::new(int_t())));
    assert_eq!(
        size(IntermediateExpression::IntermediateFnCall(IntermediateFnCall { fn_: memory(f, 0), args: Vec::new() })),
        c.fn_call + c.memory_access
    );
    let g = IntermediateType::IntermediateFnType(IntermediateFnType(vec![int_t(), int_t()], Box::new(int_t())));
    assert_eq!(
        size(IntermediateExpression::IntermediateFnCall(IntermediateFnCall {
            fn_: memory(g, 0),
            args: vec![memory(bool_t(), 1), int_value(43)]
        })),
        c.fn_call + c.memory_access + c.builtin_int + c.memory_access
    );
    assert_eq!(
        size(IntermediateExpression::IntermediateFnCall(IntermediateFnCall {
            fn_: operator("!", vec![bool_t()], bool_t()),
            args: vec![arg(bool_t(), 0)]
        })),
        op_size("!") + c.memory_access
    );
    assert_eq!(
        size(IntermediateExpression::IntermediateFnCall(IntermediateFnCall {
            fn_: operator("/", vec![int_t(), int_t()], int_t()),
            args: vec![memory(int_t(), 0), int_value(-5)]
        })),
        op_size("/") + c.builtin_int + c.memory_access
    );
    assert_eq!(
        size(IntermediateExpression::IntermediateFnCall(IntermediateFnCall {
            fn_: operator("**", vec![int_t(), int_t()], int_t()),
            args: vec![int_value(21), arg(int_t(), 0)]
        })),
        op_size("**") + c.builtin_int + c.memory_access
    );
    assert_eq!(
        size(IntermediateExpression::IntermediateCtorCall(IntermediateCtorCall {
            idx: 0,
            data: None,
            type_: IntermediateUnionType(vec![None, None])
        })),
        c.ctor_call
    );
    assert_eq!(
        size(IntermediateExpression::IntermediateCtorCall(IntermediateCtorCall {
            idx: 0,
            data: Some(IntermediateValue::IntermediateBuiltIn(IntermediateBuiltIn::Boolean(Boolean { value: false }))),
            type_: IntermediateUnionType(vec![Some(int_t()), Some(bool_t())])
        })),
        c.ctor_call + c.builtin_bool
    );
    assert_eq!(
        size(IntermediateExpression::IntermediateLambda(IntermediateLambda {
            args: Vec::new(),
            block: IntermediateBlock {
                statements: Vec::new(),
                ret: IntermediateValue::IntermediateBuiltIn(IntermediateBuiltIn::Boolean(Boolean { value: true }))
            }
        })),
        c.lambda
    );
}

#[test]
fn operator_sizes_are_exact() {
    let call = |name: &str| {
        CodeSizeEstimator::expression_size(&IntermediateExpression::IntermediateFnCall(IntermediateFnCall {
            fn_: operator(name, vec![int_t(), int_t()], int_t()),
            args: vec![int_value(1), int_value(2)],
        }))
    };
    assert_eq!(call("**"), 12);
    assert_eq!(call("*"), 9);
    assert_eq!(call("%"), 10);
    assert_eq!(call("++"), 8);
}

#[test]
fn test_assignment_statement_size() {
    let c = code_size_constants();
    let expression = IntermediateExpression::IntermediateCtorCall(IntermediateCtorCall {
        idx: 0,
        data: Some(IntermediateValue::IntermediateBuiltIn(IntermediateBuiltIn::Boolean(Boolean { value: false }))),
        type_: IntermediateUnionType(vec![Some(int_t()), Some(bool_t())]),
    });
    let expected = c.assignment + CodeSizeEstimator::expression_size(&expression);
    assert_eq!(CodeSizeEstimator::statement_size(&assignment(0, expression)), (expected, expected));
    assert_eq!(expected, 14);
}

#[test]
fn test_if_statement_size() {
    let c = code_size_constants();
    let small = assignment(2, IntermediateExpression::IntermediateValue(arg(int_t(), 0)));
    let large = assignment(
        3,
        IntermediateExpression::IntermediateFnCall(IntermediateFnCall {
            fn_: operator("*", vec![int_t(), int_t()], int_t()),
            args: vec![arg(int_t(), 0), arg(int_t(), 1)],
        }),
    );
    let large_final = assignment(2, IntermediateExpression::IntermediateValue(memory(int_t(), 3)));
    let condition = memory(bool_t(), 4);
    let small_size = statement_lower(&small);
    let large_size = statement_lower(&large) + statement_lower(&large_final);
    let condition_size = CodeSizeEstimator::value_size(&condition);
    let if_ = assignment(
        5,
        IntermediateExpression::IntermediateIf(IntermediateIf {
            condition,
            branches: (
                IntermediateBlock { statements: vec![small], ret: memory(int_t(), 2) },
                IntermediateBlock { statements: vec![large, large_final], ret: memory(int_t(), 2) },
            ),
        }),
    );
    let expected = (small_size + condition_size + c.if_statement, large_size + condition_size + c.if_statement);
    assert_eq!(CodeSizeEstimator::statement_size(&if_), expected);
    assert_eq!(expected, (8, 17));
}

#[test]
fn test_match_statement_size() {
    let c = code_size_constants();
    let small = assignment(9, IntermediateExpression::IntermediateValue(int_value(4)));
    let medium = assignment(9, IntermediateExpression::IntermediateValue(arg(int_t(), 1)));
    let large = assignment(
        9,
        IntermediateExpression::IntermediateFnCall(IntermediateFnCall {
            fn_: operator("*", vec![int_t(), int_t()], int_t()),
            args: vec![int_value(9), arg(int_t(), 2)],
        }),
    );
    let union = IntermediateUnionType(vec![Some(int_t()), None, Some(int_t())]);
    let subject = memory(IntermediateType::IntermediateUnionType(union), 3);
    let lower = statement_lower(&small).min(statement_lower(&medium)) + CodeSizeEstimator::value_size(&subject) + c.match_statement;
    let upper = statement_lower(&large) + CodeSizeEstimator::value_size(&subject) + c.match_statement;
    let branch = |target: Option<IntermediateArg>, s: IntermediateStatement| IntermediateMatchBranch {
        target,
        block: IntermediateBlock { statements: vec![s], ret: memory(int_t(), 9) },
    };
    let match_ = assignment(
        10,
        IntermediateExpression::IntermediateMatch(IntermediateMatch {
            subject,
            branches: vec![
                branch(None, small),
                branch(Some(IntermediateArg { type_: int_t(), location: Location(1) }), medium),
                branch(Some(IntermediateArg { type_: int_t(), location: Location(2) }), large),
            ],
        }),
    );
    assert_eq!(CodeSizeEstimator::statement_size(&match_), (lower, upper));
    assert_eq!((lower, upper), (8, 17));
}

#[test]
fn test_lambda_size_no_statements() {
    let c = code_size_constants();
    let lambda = IntermediateLambda {
        args: vec![IntermediateArg { type_: int_t(), location: Location(0) }],
        block: IntermediateBlock { statements: Vec::new(), ret: arg(int_t(), 0) },
    };
    assert_eq!(CodeSizeEstimator::estimate_size(&lambda), (c.memory_access, c.memory_access));
}

#[test]
fn test_lambda_size_if_statement() {
    let c = code_size_constants();
    let if_ = IntermediateIf {
        condition: arg(bool_t(), 0),
        branches: (
            IntermediateBlock {
                statements: vec![assignment(1, IntermediateExpression::IntermediateValue(int_value(1)))],
                ret: memory(int_t(), 1),
            },
            IntermediateBlock {
                statements: vec![assignment(1, IntermediateExpression::IntermediateValue(memory(int_t(), 2)))],
                ret: memory(int_t(), 1),
            },
        ),
    };
    let range = CodeSizeEstimator::if_statement_size(&if_);
    let lambda = IntermediateLambda {
        args: vec![IntermediateArg { type_: bool_t(), location: Location(0) }],
        block: IntermediateBlock {
            statements: vec![assignment(1, IntermediateExpression::IntermediateIf(if_))],
            ret: memory(int_t(), 1),
        },
    };
    assert_eq!(CodeSizeEstimator::estimate_size(&lambda), (range.0 + c.memory_access, range.1 + c.memory_access));
    assert_eq!(range, (8, 8));
}

#[test]
fn statements_sizes_add() {
    let statements = vec![
        assignment(0, IntermediateExpression::IntermediateTupleExpression(IntermediateTupleExpression(Vec::new()))),
        assignment(
            1,
            IntermediateExpression::IntermediateCtorCall(IntermediateCtorCall {
                idx: 0,
                data: None,
                type_: IntermediateUnionType(vec![None]),
            }),
        ),
    ];
    assert_eq!(CodeSizeEstimator::statements_size(&statements), (21, 21));
    assert_eq!(CodeSizeEstimator::statements_size(&Vec::new()), (0, 0));
}
