use compilation::atoms::{AtomicTypeEnum, Integer};
use compilation::equality::type_eq;
use compilation::expression_equality_checker::ExpressionEqualityChecker;
use compilation::intermediate::{
    AtomicType, IntermediateArg, IntermediateAssignment, IntermediateBlock, IntermediateBuiltIn,
    IntermediateExpression, IntermediateLambda, IntermediateMemory, IntermediateStatement,
    IntermediateTupleExpression, IntermediateTupleType, IntermediateType, IntermediateValue, Location,
};

fn int_t() -> IntermediateType {
    IntermediateType::AtomicType(AtomicType(AtomicTypeEnum::INT))
}

fn bool_t() -> IntermediateType {
    IntermediateType::AtomicType(AtomicType(AtomicTypeEnum::BOOL))
}

fn memory(location: usize) -> IntermediateValue {
    IntermediateValue::IntermediateMemory(IntermediateMemory { type_: int_t(), location: Location(location) })
}

fn arg_value(location: usize) -> IntermediateValue {
    IntermediateValue::IntermediateArg(IntermediateArg { type_: int_t(), location: Location(location) })
}

fn lambda(arg: usize, tmp: usize) -> IntermediateExpression {
    IntermediateExpression::IntermediateLambda(IntermediateLambda {
        args: vec![IntermediateArg { type_: int_t(), location: Location(arg) }],
        block: IntermediateBlock {
            statements: vec![IntermediateStatement::IntermediateAssignment(IntermediateAssignment {
                location: Location(tmp),
                expression: IntermediateExpression::IntermediateTupleExpression(IntermediateTupleExpression(vec![
                    arg_value(arg),
                    arg_value(arg),
                ])),
            })],
            ret: memory(tmp),
        },
    })
}

#[test]
fn renamed_lambdas_are_equal() {
    assert!(ExpressionEqualityChecker::assert_equal(&lambda(0, 1), &lambda(10, 11)));
    assert!(ExpressionEqualityChecker::assert_equal(&lambda(0, 1), &lambda(0, 1)));
}

#[test]
fn lambdas_that_swap_their_locations_are_not_equal_to_merged_ones() {
    assert!(!ExpressionEqualityChecker::assert_equal(&lambda(0, 1), &lambda(2, 2)));
}

#[test]
fn different_values_are_not_equal() {
    let one = IntermediateExpression::IntermediateValue(IntermediateValue::IntermediateBuiltIn(
        IntermediateBuiltIn::Integer(Integer { value: 1 }),
    ));
    let two = IntermediateExpression::IntermediateValue(IntermediateValue::IntermediateBuiltIn(
        IntermediateBuiltIn::Integer(Integer { value: 2 }),
    ));
    assert!(ExpressionEqualityChecker::assert_equal(&one, &one));
    assert!(!ExpressionEqualityChecker::assert_equal(&one, &two));
    assert!(!ExpressionEqualityChecker::assert_equal(&one, &IntermediateExpression::IntermediateValue(memory(0))));
}

#[test]
fn a_location_pairs_with_one_location_only() {
    let mut checker = ExpressionEqualityChecker::new();
    assert!(checker.assert_equal_locations(&Location(1), &Location(2)));
    assert!(checker.assert_equal_locations(&Location(1), &Location(2)));
    assert!(!checker.assert_equal_locations(&Location(1), &Location(3)));
    assert!(!checker.assert_equal_locations(&Location(4), &Location(2)));
}

#[test]
fn types_compare_structurally() {
    let pair = |a, b| IntermediateType::IntermediateTupleType(IntermediateTupleType(vec![a, b]));
    assert!(type_eq(&pair(int_t(), bool_t()), &pair(int_t(), bool_t())));
    assert!(!type_eq(&pair(int_t(), bool_t()), &pair(bool_t(), int_t())));
    assert!(type_eq(&IntermediateType::Reference(3), &IntermediateType::Reference(3)));
    assert!(!type_eq(&IntermediateType::Reference(3), &IntermediateType::Reference(4)));
}

#[test]
fn equality_does_not_depend_on_order() {
    let pairs = vec![
        (lambda(0, 1), lambda(10, 11)),
        (lambda(0, 1), lambda(2, 2)),
        (lambda(2, 2), lambda(0, 1)),
        (IntermediateExpression::IntermediateValue(memory(0)), IntermediateExpression::IntermediateValue(arg_value(0))),
    ];
    for (a, b) in &pairs {
        assert_eq!(ExpressionEqualityChecker::assert_equal(a, b), ExpressionEqualityChecker::assert_equal(b, a));
    }
    assert!(!ExpressionEqualityChecker::assert_equal(&lambda(2, 2), &lambda(0, 1)));
}

#[test]
fn a_supply_hands_out_fresh_locations() {
    let mut supply = compilation::intermediate::LocationSupply::new();
    let first = supply.fresh();
    let second = supply.fresh();
    let third = supply.fresh();
    assert_ne!(first, second);
    assert_ne!(second, third);
    assert_ne!(first, third);
    assert!(first < second && second < third);
}
