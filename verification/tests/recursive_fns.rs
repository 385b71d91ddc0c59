use std::collections::HashMap;

use compilation::atoms::{AtomicTypeEnum, Integer};
use compilation::fn_inst::{FnInst, RootFn};
use compilation::intermediate::{
    AtomicType, BuiltInFn, IntermediateArg, IntermediateAssignment, IntermediateBlock, IntermediateBuiltIn,
    IntermediateExpression, IntermediateFnCall, IntermediateFnType, IntermediateIf, IntermediateLambda,
    IntermediateMemory, IntermediateProgram, IntermediateStatement, IntermediateType, IntermediateValue, Location,
};
use compilation::recursive_fn_finder::RecursiveFnFinder;

fn int_t() -> IntermediateType {
    IntermediateType::AtomicType(AtomicType(AtomicTypeEnum::INT))
}

fn fn_t() -> IntermediateType {
    IntermediateType::IntermediateFnType(IntermediateFnType(Vec::new(), Box::new(int_t())))
}

fn memory(type_: IntermediateType, location: usize) -> IntermediateValue {
    IntermediateValue::IntermediateMemory(IntermediateMemory { type_, location: Location(location) })
}

fn assignment(location: usize, expression: IntermediateExpression) -> IntermediateStatement {
    IntermediateStatement::IntermediateAssignment(IntermediateAssignment { expression, location: Location(location) })
}

fn lambda(args: Vec<IntermediateArg>, statements: Vec<IntermediateStatement>, ret: IntermediateValue) -> IntermediateExpression {
    IntermediateExpression::IntermediateLambda(IntermediateLambda { args, block: IntermediateBlock { statements, ret } })
}

fn call(fn_: IntermediateValue, args: Vec<IntermediateValue>) -> IntermediateExpression {
    IntermediateExpression::IntermediateFnCall(IntermediateFnCall { fn_, args })
}

fn zero() -> IntermediateValue {
    IntermediateValue::IntermediateBuiltIn(IntermediateBuiltIn::Integer(Integer { value: 0 }))
}

fn program(statements: Vec<IntermediateStatement>) -> IntermediateProgram {
    IntermediateProgram {
        main: IntermediateLambda { args: Vec::new(), block: IntermediateBlock { statements, ret: zero() } },
        types: Vec::new(),
    }
}

fn expected(entries: &[(usize, bool)]) -> HashMap<usize, bool> {
    entries.iter().cloned().collect()
}

#[test]
fn collects_lambdas_builtins_and_copies() {
    let plus = BuiltInFn(String::from("<=>"), IntermediateFnType(vec![int_t(), int_t()], Box::new(int_t())));
    let statements = vec![
        assignment(0, lambda(Vec::new(), Vec::new(), zero())),
        assignment(1, IntermediateExpression::IntermediateValue(IntermediateValue::IntermediateBuiltIn(
            IntermediateBuiltIn::BuiltInFn(plus.clone()),
        ))),
        assignment(2, IntermediateExpression::IntermediateValue(memory(fn_t(), 0))),
        assignment(3, IntermediateExpression::IntermediateValue(memory(int_t(), 9))),
        assignment(4, call(memory(fn_t(), 0), Vec::new())),
    ];
    let mut fn_defs = HashMap::new();
    FnInst::collect_fn_defs_from_statements(&statements, &mut fn_defs);
    let mut keys: Vec<usize> = fn_defs.keys().cloned().collect();
    keys.sort();
    assert_eq!(keys, vec![0, 1, 2]);
    assert!(matches!(fn_defs.get(&2), Some(FnInst::Ref(Location(0)))));
    assert!(matches!(FnInst::get_root_fn(&fn_defs, &Location(2)), Some(RootFn::Lambda(_))));
    assert!(matches!(FnInst::get_root_fn(&fn_defs, &Location(1)), Some(RootFn::BuiltIn(BuiltInFn(ref name, _))) if name == "<=>"));
    assert!(FnInst::get_root_fn(&fn_defs, &Location(3)).is_none());
}

#[test]
fn collects_lambdas_inside_lambdas_and_branches() {
    let inner = assignment(5, lambda(Vec::new(), Vec::new(), zero()));
    let in_branch = assignment(6, lambda(Vec::new(), Vec::new(), zero()));
    let statements = vec![
        assignment(0, lambda(Vec::new(), vec![inner], zero())),
        assignment(
            1,
            IntermediateExpression::IntermediateIf(IntermediateIf {
                condition: memory(int_t(), 7),
                branches: (
                    IntermediateBlock { statements: vec![in_branch], ret: zero() },
                    IntermediateBlock { statements: Vec::new(), ret: zero() },
                ),
            }),
        ),
    ];
    let mut fn_defs = HashMap::new();
    FnInst::collect_fn_defs_from_statements(&statements, &mut fn_defs);
    let mut keys: Vec<usize> = fn_defs.keys().cloned().collect();
    keys.sort();
    assert_eq!(keys, vec![0, 5, 6]);
}

#[test]
fn empty_fns() {
    assert_eq!(RecursiveFnFinder::recursive_fns(&program(Vec::new())), expected(&[]));
}

#[test]
fn identity_fn() {
    let arg = IntermediateArg { type_: int_t(), location: Location(1) };
    let statements = vec![assignment(0, lambda(vec![arg.clone()], Vec::new(), IntermediateValue::IntermediateArg(arg)))];
    assert_eq!(RecursiveFnFinder::recursive_fns(&program(statements)), expected(&[(0, false)]));
}

#[test]
fn higher_order_fn() {
    let f = IntermediateValue::IntermediateArg(IntermediateArg {
        type_: IntermediateType::IntermediateFnType(IntermediateFnType(vec![int_t()], Box::new(int_t()))),
        location: Location(2),
    });
    let statements = vec![assignment(0, lambda(Vec::new(), vec![assignment(1, call(f, vec![zero()]))], memory(int_t(), 1)))];
    assert_eq!(RecursiveFnFinder::recursive_fns(&program(statements)), expected(&[(0, true)]));
}

#[test]
fn internal_non_recursive_fn_call() {
    let arg = IntermediateArg { type_: int_t(), location: Location(1) };
    let id = lambda(vec![arg.clone()], Vec::new(), IntermediateValue::IntermediateArg(arg));
    let idea = lambda(
        Vec::new(),
        vec![assignment(2, id), assignment(3, call(memory(fn_t(), 2), vec![zero()]))],
        memory(int_t(), 3),
    );
    let statements = vec![assignment(0, idea)];
    assert_eq!(RecursiveFnFinder::recursive_fns(&program(statements)), expected(&[(0, false), (2, false)]));
}

#[test]
fn external_non_recursive_fn_call_through_a_copy() {
    let arg = IntermediateArg { type_: int_t(), location: Location(1) };
    let id = lambda(vec![arg.clone()], Vec::new(), IntermediateValue::IntermediateArg(arg));
    let statements = vec![
        assignment(2, id),
        assignment(4, IntermediateExpression::IntermediateValue(memory(fn_t(), 2))),
        assignment(0, lambda(Vec::new(), vec![assignment(3, call(memory(fn_t(), 4), vec![zero()]))], memory(int_t(), 3))),
    ];
    assert_eq!(RecursiveFnFinder::recursive_fns(&program(statements)), expected(&[(0, false), (2, false)]));
}

#[test]
fn self_recursive_fn() {
    let statements = vec![assignment(0, lambda(Vec::new(), vec![assignment(1, call(memory(fn_t(), 0), Vec::new()))], memory(int_t(), 1)))];
    assert_eq!(RecursiveFnFinder::recursive_fns(&program(statements)), expected(&[(0, true)]));
}

#[test]
fn mutually_recursive_fns() {
    let statements = vec![
        assignment(0, lambda(Vec::new(), vec![assignment(2, call(memory(fn_t(), 1), Vec::new()))], memory(int_t(), 2))),
        assignment(1, lambda(Vec::new(), vec![assignment(3, call(memory(fn_t(), 0), Vec::new()))], memory(int_t(), 3))),
    ];
    assert_eq!(RecursiveFnFinder::recursive_fns(&program(statements)), expected(&[(0, true), (1, true)]));
}

#[test]
fn calling_a_recursive_fn_counts_as_recursive() {
    let arg = IntermediateArg { type_: int_t(), location: Location(9) };
    let statements = vec![
        assignment(0, lambda(Vec::new(), vec![assignment(2, call(memory(fn_t(), 0), Vec::new()))], memory(int_t(), 2))),
        assignment(5, lambda(vec![arg.clone()], Vec::new(), IntermediateValue::IntermediateArg(arg))),
        assignment(
            1,
            lambda(
                Vec::new(),
                vec![
                    assignment(3, call(memory(fn_t(), 5), vec![zero()])),
                    assignment(4, call(memory(fn_t(), 0), Vec::new())),
                ],
                memory(int_t(), 4),
            ),
        ),
    ];
    assert_eq!(
        RecursiveFnFinder::recursive_fns(&program(statements)),
        expected(&[(0, true), (5, false), (1, true)])
    );
}
