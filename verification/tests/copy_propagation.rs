use compilation::atoms::{AtomicTypeEnum, Integer};
use compilation::copy_propagation::{AllocationOptimizer, CopyPropagator};
use compilation::intermediate::{
    AtomicType, BuiltInFn, IntermediateAssignment, IntermediateBlock, IntermediateBuiltIn, IntermediateExpression,
    IntermediateFnCall, IntermediateFnType, IntermediateLambda, IntermediateMemory, IntermediateStatement,
    IntermediateTupleExpression, IntermediateType, IntermediateValue, Location,
};

fn int_t() -> IntermediateType {
    IntermediateType::AtomicType(AtomicType(AtomicTypeEnum::INT))
}

fn memory(location: usize) -> IntermediateValue {
    IntermediateValue::IntermediateMemory(IntermediateMemory { type_: int_t(), location: Location(location) })
}

fn int_value(value: i64) -> IntermediateValue {
    IntermediateValue::IntermediateBuiltIn(IntermediateBuiltIn::Integer(Integer { value }))
}

fn plus(a: IntermediateValue, b: IntermediateValue) -> IntermediateExpression {
    IntermediateExpression::IntermediateFnCall(IntermediateFnCall {
        fn_: IntermediateValue::IntermediateBuiltIn(IntermediateBuiltIn::BuiltInFn(BuiltInFn(
            String::from("+"),
            IntermediateFnType(vec![int_t(), int_t()], Box::new(int_t())),
        ))),
        args: vec![a, b],
    })
}

fn assignment(location: usize, expression: IntermediateExpression) -> IntermediateStatement {
    IntermediateStatement::IntermediateAssignment(IntermediateAssignment { expression, location: Location(location) })
}

fn copies() -> Vec<IntermediateStatement> {
    vec![
        assignment(0, IntermediateExpression::IntermediateValue(int_value(1))),
        assignment(1, IntermediateExpression::IntermediateValue(memory(0))),
        assignment(2, plus(memory(1), memory(0))),
        assignment(3, IntermediateExpression::IntermediateTupleExpression(IntermediateTupleExpression(vec![memory(2), memory(1)]))),
    ]
}

#[test]
fn copies_are_followed_to_their_source() {
    let statements = copies();
    let propagator = CopyPropagator::from_statements(&statements);
    assert_eq!(propagator.propagate_copies_in_value(&memory(1)), int_value(1));
    assert_eq!(propagator.propagate_copies_in_value(&memory(2)), memory(2));
    assert_eq!(propagator.propagate_copies_in_value(&memory(7)), memory(7));
}

#[test]
fn copy_assignments_are_dropped() {
    let statements = copies();
    let propagator = CopyPropagator::from_statements(&statements);
    assert_eq!(
        propagator.propagate_copies_in_statements(&statements),
        vec![
            assignment(2, plus(int_value(1), int_value(1))),
            assignment(3, IntermediateExpression::IntermediateTupleExpression(IntermediateTupleExpression(vec![memory(2), int_value(1)]))),
        ]
    );
}

#[test]
fn copies_inside_lambdas_are_registered_and_propagated() {
    let lambda = IntermediateLambda {
        args: Vec::new(),
        block: IntermediateBlock {
            statements: vec![
                assignment(5, IntermediateExpression::IntermediateValue(int_value(3))),
                assignment(6, plus(memory(5), memory(5))),
            ],
            ret: memory(6),
        },
    };
    let statements = vec![assignment(4, IntermediateExpression::IntermediateLambda(lambda))];
    let propagator = CopyPropagator::from_statements(&statements);
    let expected = IntermediateLambda {
        args: Vec::new(),
        block: IntermediateBlock { statements: vec![assignment(6, plus(int_value(3), int_value(3)))], ret: memory(6) },
    };
    assert_eq!(
        propagator.propagate_copies_in_statements(&statements),
        vec![assignment(4, IntermediateExpression::IntermediateLambda(expected))]
    );
}

#[test]
fn block_return_values_are_resolved() {
    let statements = copies();
    let optimizer = AllocationOptimizer::from_statements(&statements);
    let block = IntermediateBlock { statements, ret: memory(1) };
    let optimized = optimizer.remove_wasted_allocations_from_block(&block);
    assert_eq!(optimized.ret, int_value(1));
    assert_eq!(optimized.statements.len(), 2);
}
