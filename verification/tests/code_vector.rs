use compilation::atoms::{AtomicTypeEnum, Boolean, Integer};
use compilation::code_size::CodeVector;
use compilation::code_vector::CodeVectorCalculator;
use compilation::intermediate::{
    AtomicType, BuiltInFn, IntermediateArg, IntermediateAssignment, IntermediateBlock, IntermediateBuiltIn,
    IntermediateCtorCall, IntermediateExpression, IntermediateFnCall, IntermediateFnType, IntermediateIf,
    IntermediateLambda, IntermediateMatch, IntermediateMatchBranch, IntermediateMemory, IntermediateStatement,
    IntermediateTupleExpression, IntermediateType, IntermediateUnionType, IntermediateValue, Location,
};

fn int_t() -> IntermediateType {
    IntermediateType::AtomicType(AtomicType(AtomicTypeEnum::INT))
}

fn bool_t() -> IntermediateType {
    IntermediateType::AtomicType(AtomicType(AtomicTypeEnum::BOOL))
}

fn memory(type_: IntermediateType, location: usize) -> IntermediateValue {
    IntermediateValue::IntermediateMemory(IntermediateMemory { type_, location: Location(location) })
}

fn arg(type_: IntermediateType, location: usize) -> IntermediateValue {
    IntermediateValue::IntermediateArg(IntermediateArg { type_, location: Location(location) })
}

fn int_value(value: i64) -> IntermediateValue {
    IntermediateValue::IntermediateBuiltIn(IntermediateBuiltIn::Integer(Integer { value }))
}

fn assignment(location: usize, expression: IntermediateExpression) -> IntermediateStatement {
    IntermediateStatement::IntermediateAssignment(IntermediateAssignment { expression, location: Location(location) })
}

fn sum(vectors: Vec<CodeVector>) -> CodeVector {
    CodeVector::sum(vectors)
}

fn nonzero(mut v: CodeVector) -> CodeVector {
    v.operators.retain(|(_, c)| *c != 0);
    v
}

#[test]
fn test_value_vector() {
    assert_eq!(
        CodeVectorCalculator::value_vector(&IntermediateValue::IntermediateBuiltIn(IntermediateBuiltIn::Boolean(
            Boolean { value: true }
        ))),
        CodeVector::builtin_bool()
    );
    assert_eq!(CodeVectorCalculator::value_vector(&int_value(5)), CodeVector::builtin_int());
    let plus = IntermediateValue::IntermediateBuiltIn(IntermediateBuiltIn::BuiltInFn(BuiltInFn(
        String::from("+"),
        IntermediateFnType(vec![int_t(), int_t()], Box::new(int_t())),
    )));
    assert_eq!(CodeVectorCalculator::value_vector(&plus), CodeVector::builtin_fn());
    assert_eq!(CodeVectorCalculator::value_vector(&arg(int_t(), 0)), CodeVector::memory_access());
    assert_eq!(CodeVectorCalculator::value_vector(&memory(bool_t(), 1)), CodeVector::memory_access());
}

#[test]
fn test_expression_vector() {
    let vector = |e: IntermediateExpression| CodeVectorCalculator::expression_vector(&e);
    assert_eq!(
        vector(IntermediateExpression::IntermediateTupleExpression(IntermediateTupleExpression(Vec::new()))),
        CodeVector::tuple_expression()
    );
    assert_eq!(
        vector(IntermediateExpression::IntermediateTupleExpression(IntermediateTupleExpression(vec![
            memory(bool_t(), 0),
            int_value(43)
        ]))),
        sum(vec![CodeVector::tuple_expression(), CodeVector::builtin_int(), CodeVector::memory_access()])
    );
    assert_eq!(
        vector(IntermediateExpression::IntermediateValue(int_value(-27))),
        sum(vec![CodeVector::value_expression(), CodeVector::builtin_int()])
    );
    let times = IntermediateValue::IntermediateBuiltIn(IntermediateBuiltIn::BuiltInFn(BuiltInFn(
        String::from("*"),
        IntermediateFnType(vec![int_t(), int_t()], Box::new(int_t())),
    )));
    assert_eq!(
        vector(IntermediateExpression::IntermediateFnCall(IntermediateFnCall {
            fn_: times,
            args: vec![int_value(2), arg(int_t(), 0)]
        })),
        sum(vec![CodeVector::operator(String::from("*")), CodeVector::builtin_int(), CodeVector::memory_access()])
    );
    let f = IntermediateType::IntermediateFnType(IntermediateFnType(Vec::new(), Box::new(int_t())));
    assert_eq!(
        vector(IntermediateExpression::IntermediateFnCall(IntermediateFnCall { fn_: memory(f, 0), args: Vec::new() })),
        sum(vec![CodeVector::fn_call(), CodeVector::memory_access()])
    );
    assert_eq!(
        vector(IntermediateExpression::IntermediateCtorCall(IntermediateCtorCall {
            idx: 0,
            data: None,
            type_: IntermediateUnionType(vec![None, None])
        })),
        CodeVector::ctor_call()
    );
    assert_eq!(
        vector(IntermediateExpression::IntermediateLambda(IntermediateLambda {
            args: Vec::new(),
            block: IntermediateBlock { statements: Vec::new(), ret: int_value(0) }
        })),
        CodeVector::lambda()
    );
}

#[test]
fn test_statement_vector_assignment() {
    let statement = assignment(0, IntermediateExpression::IntermediateValue(int_value(1)));
    assert_eq!(
        CodeVectorCalculator::statement_vector(&statement),
        sum(vec![CodeVector::value_expression(), CodeVector::builtin_int(), CodeVector::assignment()])
    );
}

#[test]
fn test_statement_vector_balanced_if() {
    let block = |value: i64| IntermediateBlock {
        statements: vec![assignment(1, IntermediateExpression::IntermediateValue(int_value(value)))],
        ret: memory(int_t(), 1),
    };
    let if_ = IntermediateIf { condition: arg(bool_t(), 0), branches: (block(1), block(-1)) };
    let expected = sum(vec![
        CodeVectorCalculator::statements_vector(&block(1).statements),
        CodeVector::memory_access(),
        CodeVector::memory_access(),
        CodeVector::if_statement(),
    ]);
    assert_eq!(CodeVectorCalculator::if_statement_vector(&if_), expected);
    assert_eq!(
        CodeVectorCalculator::statement_vector(&assignment(2, IntermediateExpression::IntermediateIf(if_))),
        expected
    );
}

#[test]
fn test_statement_vector_balanced_match() {
    let branch = |target: Option<usize>, value: i64| IntermediateMatchBranch {
        target: target.map(|l| IntermediateArg { type_: int_t(), location: Location(l) }),
        block: IntermediateBlock {
            statements: vec![assignment(5, IntermediateExpression::IntermediateValue(int_value(value)))],
            ret: memory(int_t(), 5),
        },
    };
    let union = IntermediateType::IntermediateUnionType(IntermediateUnionType(vec![None, Some(int_t())]));
    let match_ = IntermediateMatch { subject: memory(union, 0), branches: vec![branch(None, 1), branch(Some(3), 2)] };
    assert_eq!(
        CodeVectorCalculator::match_statement_vector(&match_),
        sum(vec![
            CodeVector::value_expression(),
            CodeVector::builtin_int(),
            CodeVector::assignment(),
            CodeVector::memory_access(),
            CodeVector::memory_access(),
            CodeVector::match_statement(),
        ])
    );
}

#[test]
fn test_lambda_vector_no_statements() {
    let lambda = IntermediateLambda {
        args: vec![IntermediateArg { type_: int_t(), location: Location(0) }],
        block: IntermediateBlock { statements: Vec::new(), ret: arg(int_t(), 0) },
    };
    assert_eq!(nonzero(CodeVectorCalculator::lambda_vector(&lambda)), CodeVector::memory_access());
}

#[test]
fn test_lambda_vector_if_statement() {
    let block = |value: i64| IntermediateBlock {
        statements: vec![assignment(1, IntermediateExpression::IntermediateValue(int_value(value)))],
        ret: memory(int_t(), 1),
    };
    let if_ = IntermediateIf { condition: arg(bool_t(), 0), branches: (block(1), block(-1)) };
    let if_vector = CodeVectorCalculator::if_statement_vector(&if_);
    let lambda = IntermediateLambda {
        args: vec![IntermediateArg { type_: bool_t(), location: Location(0) }],
        block: IntermediateBlock {
            statements: vec![assignment(1, IntermediateExpression::IntermediateIf(if_))],
            ret: memory(int_t(), 1),
        },
    };
    assert_eq!(
        nonzero(CodeVectorCalculator::lambda_vector(&lambda)),
        sum(vec![if_vector, CodeVector::memory_access()])
    );
}

#[test]
fn code_vector_exhaustive_operator_test() {
    let lambda = IntermediateLambda {
        args: Vec::new(),
        block: IntermediateBlock { statements: Vec::new(), ret: int_value(0) },
    };
    let vector = CodeVectorCalculator::lambda_vector(&lambda);
    let mut names: Vec<String> = vector.operators.iter().map(|(k, _)| k.clone()).collect();
    names.sort();
    let mut expected: Vec<String> = [
        "**", "*", "/", "%", "+", "-", ">>", "<<", "<=>", "&", "^", "|", "++", "--", "<", "<=", ">", ">=", "==", "!=", "!",
    ]
    .iter()
    .map(|s| String::from(*s))
    .collect();
    expected.sort();
    assert_eq!(names, expected);
    assert!(vector.operators.iter().all(|(_, c)| *c == 0));
}

#[test]
fn unbalanced_branches_have_no_vector() {
    let if_ = IntermediateIf {
        condition: arg(bool_t(), 0),
        branches: (
            IntermediateBlock {
                statements: vec![assignment(1, IntermediateExpression::IntermediateValue(int_value(1)))],
                ret: memory(int_t(), 1),
            },
            IntermediateBlock {
                statements: vec![assignment(1, IntermediateExpression::IntermediateValue(memory(int_t(), 2)))],
                ret: memory(int_t(), 1),
            },
        ),
    };
    let lambda = IntermediateLambda {
        args: vec![IntermediateArg { type_: bool_t(), location: Location(0) }],
        block: IntermediateBlock {
            statements: vec![assignment(1, IntermediateExpression::IntermediateIf(if_))],
            ret: memory(int_t(), 1),
        },
    };
    assert!(!CodeVectorCalculator::statements_agree(&lambda.block.statements));
    assert!(CodeVectorCalculator::checked_lambda_vector(&lambda).is_none());
}

#[test]
fn balanced_branches_have_a_vector() {
    let block = |value: i64| IntermediateBlock {
        statements: vec![assignment(1, IntermediateExpression::IntermediateValue(int_value(value)))],
        ret: memory(int_t(), 1),
    };
    let lambda = IntermediateLambda {
        args: vec![IntermediateArg { type_: bool_t(), location: Location(0) }],
        block: IntermediateBlock {
            statements: vec![assignment(
                1,
                IntermediateExpression::IntermediateIf(IntermediateIf {
                    condition: arg(bool_t(), 0),
                    branches: (block(1), block(2)),
                }),
            )],
            ret: memory(int_t(), 1),
        },
    };
    let checked = CodeVectorCalculator::checked_lambda_vector(&lambda).unwrap();
    assert_eq!(checked, CodeVectorCalculator::lambda_vector(&lambda));
}

#[test]
fn code_size_exhaustive_operator_test() {
    let constants = compilation::code_size::code_size_constants();
    let mut names: Vec<String> = constants.operators.iter().map(|(k, _)| k.clone()).collect();
    names.sort();
    let mut expected: Vec<String> = [
        "**", "*", "/", "%", "+", "-", ">>", "<<", "<=>", "&", "^", "|", "++", "--", "<", "<=", ">", ">=", "==", "!=", "!",
    ]
    .iter()
    .map(|s| String::from(*s))
    .collect();
    expected.sort();
    assert_eq!(names, expected);
}
