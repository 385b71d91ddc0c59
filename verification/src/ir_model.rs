//! Mathematical model of the intermediate representation, and the meaning of
//! the queries and rewrites that the lowering stage performs on it.

use vstd::prelude::*;
use crate::atoms::AtomicTypeEnum;

verus! {

/// Model of an intermediate type. `Reference(i)` stands for the `i`-th entry
/// of the program's table of (possibly recursive) type definitions.
pub enum TypeModel {
    Atomic(AtomicTypeEnum),
    Tuple(Seq<TypeModel>),
    Function(Seq<TypeModel>, Box<TypeModel>),
    Union(Seq<Option<TypeModel>>),
    Reference(usize),
}

/// Model of a built-in value.
pub enum BuiltInModel {
    Integer(i64),
    Boolean(bool),
    Function(Seq<char>, Seq<TypeModel>, TypeModel),
}

/// A typed storage slot: a memory location or an argument.
pub struct SlotModel {
    pub type_: TypeModel,
    pub location: usize,
}

/// Model of an intermediate value.
pub enum ValueModel {
    BuiltIn(BuiltInModel),
    Memory(SlotModel),
    Arg(SlotModel),
}

/// Model of an intermediate expression.
pub enum ExpressionModel {
    Value(ValueModel),
    ElementAccess(ValueModel, usize),
    Tuple(Seq<ValueModel>),
    FnCall(ValueModel, Seq<ValueModel>),
    CtorCall(usize, Option<ValueModel>, Seq<Option<TypeModel>>),
    Lambda(LambdaModel),
    If(ValueModel, BlockModel, BlockModel),
    Match(ValueModel, Seq<BranchModel>),
}

/// Model of an assignment (the only kind of intermediate statement).
pub struct AssignmentModel {
    pub expression: ExpressionModel,
    pub location: usize,
}

/// Model of a block: statements followed by a returned value.
pub struct BlockModel {
    pub statements: Seq<AssignmentModel>,
    pub ret: ValueModel,
}

/// Model of a lambda.
pub struct LambdaModel {
    pub args: Seq<SlotModel>,
    pub block: BlockModel,
}

/// Model of a match branch.
pub struct BranchModel {
    pub target: Option<SlotModel>,
    pub block: BlockModel,
}

// ---------------------------------------------------------------------------
// Types of values.

pub open spec fn builtin_type(b: BuiltInModel) -> TypeModel {
    match b {
        BuiltInModel::Integer(_) => TypeModel::Atomic(AtomicTypeEnum::INT),
        BuiltInModel::Boolean(_) => TypeModel::Atomic(AtomicTypeEnum::BOOL),
        BuiltInModel::Function(_, args, ret) => TypeModel::Function(args, Box::new(ret)),
    }
}

pub open spec fn value_type(v: ValueModel) -> TypeModel {
    match v {
        ValueModel::BuiltIn(b) => builtin_type(b),
        ValueModel::Memory(s) => s.type_,
        ValueModel::Arg(s) => s.type_,
    }
}

pub open spec fn value_types(vs: Seq<ValueModel>) -> Seq<TypeModel> {
    vs.map_values(|v: ValueModel| value_type(v))
}

/// The location of a value, if it has one.
pub open spec fn value_location(v: ValueModel) -> Option<usize> {
    match v {
        ValueModel::BuiltIn(_) => None,
        ValueModel::Memory(s) => Some(s.location),
        ValueModel::Arg(s) => Some(s.location),
    }
}

/// The location of a value, if the value is a memory location.
pub open spec fn memory_location(v: ValueModel) -> Option<usize> {
    match v {
        ValueModel::Memory(s) => Some(s.location),
        _ => None,
    }
}

pub open spec fn block_type(b: BlockModel) -> TypeModel {
    value_type(b.ret)
}

pub open spec fn lambda_type(l: LambdaModel) -> TypeModel {
    TypeModel::Function(l.args.map_values(|a: SlotModel| a.type_), Box::new(block_type(l.block)))
}

/// Whether an element access is well typed: the value is a tuple with an element at the index.
pub open spec fn element_access_ok(v: ValueModel, idx: usize) -> bool {
    match value_type(v) {
        TypeModel::Tuple(ts) => idx < ts.len(),
        _ => false,
    }
}

/// Whether a call is well typed: the called value has a function type.
pub open spec fn fn_call_ok(f: ValueModel) -> bool {
    value_type(f) is Function
}

/// Whether every node of an expression that needs type information has it:
/// element accesses address tuples, calls call functions, and matches have branches.
pub open spec fn expression_typable(e: ExpressionModel) -> bool {
    match e {
        ExpressionModel::ElementAccess(v, i) => element_access_ok(v, i),
        ExpressionModel::FnCall(f, _) => fn_call_ok(f),
        ExpressionModel::Match(_, bs) => bs.len() > 0,
        _ => true,
    }
}

/// The type of an expression.
pub open spec fn expression_type(e: ExpressionModel) -> TypeModel {
    match e {
        ExpressionModel::Value(v) => value_type(v),
        ExpressionModel::ElementAccess(v, i) => match value_type(v) {
            TypeModel::Tuple(ts) => ts[i as int],
            _ => TypeModel::Tuple(Seq::empty()),
        },
        ExpressionModel::Tuple(vs) => TypeModel::Tuple(value_types(vs)),
        ExpressionModel::FnCall(f, _) => match value_type(f) {
            TypeModel::Function(_, r) => *r,
            _ => TypeModel::Tuple(Seq::empty()),
        },
        ExpressionModel::CtorCall(_, _, variants) => TypeModel::Union(variants),
        ExpressionModel::Lambda(l) => lambda_type(l),
        ExpressionModel::If(_, t, _) => block_type(t),
        ExpressionModel::Match(_, bs) => block_type(bs[0].block),
    }
}

// ---------------------------------------------------------------------------
// Substitution of locations.

/// The image of a location under a substitution (unchanged when it is not mapped).
pub open spec fn subst_location(s: Map<usize, usize>, l: usize) -> usize {
    if s.contains_key(l) { s[l] } else { l }
}

/// Substituting a value: memory locations are renamed; an argument whose location
/// is mapped becomes a memory location at the image; built-ins are unchanged.
pub open spec fn subst_value(v: ValueModel, s: Map<usize, usize>) -> ValueModel {
    match v {
        ValueModel::BuiltIn(b) => ValueModel::BuiltIn(b),
        ValueModel::Memory(m) => ValueModel::Memory(SlotModel { type_: m.type_, location: subst_location(s, m.location) }),
        ValueModel::Arg(a) => if s.contains_key(a.location) {
            ValueModel::Memory(SlotModel { type_: a.type_, location: s[a.location] })
        } else {
            ValueModel::Arg(a)
        },
    }
}

pub open spec fn subst_values(vs: Seq<ValueModel>, s: Map<usize, usize>) -> Seq<ValueModel> {
    vs.map_values(|v: ValueModel| subst_value(v, s))
}

pub open spec fn subst_expression(e: ExpressionModel, s: Map<usize, usize>) -> ExpressionModel
    decreases e,
{
    match e {
        ExpressionModel::Value(v) => ExpressionModel::Value(subst_value(v, s)),
        ExpressionModel::ElementAccess(v, i) => ExpressionModel::ElementAccess(subst_value(v, s), i),
        ExpressionModel::Tuple(vs) => ExpressionModel::Tuple(subst_values(vs, s)),
        ExpressionModel::FnCall(f, args) => ExpressionModel::FnCall(subst_value(f, s), subst_values(args, s)),
        ExpressionModel::CtorCall(i, d, t) => ExpressionModel::CtorCall(i, match d {
            None => None,
            Some(v) => Some(subst_value(v, s)),
        }, t),
        ExpressionModel::Lambda(l) => ExpressionModel::Lambda(LambdaModel { args: l.args, block: subst_block(l.block, s) }),
        ExpressionModel::If(c, t, f) => ExpressionModel::If(subst_value(c, s), subst_block(t, s), subst_block(f, s)),
        ExpressionModel::Match(v, bs) => ExpressionModel::Match(subst_value(v, s), Seq::new(bs.len(), |i: int|
            if 0 <= i < bs.len() {
                BranchModel { target: bs[i].target, block: subst_block(bs[i].block, s) }
            } else {
                bs[i]
            })),
    }
}

pub open spec fn subst_statement(a: AssignmentModel, s: Map<usize, usize>) -> AssignmentModel
    decreases a,
{
    AssignmentModel { expression: subst_expression(a.expression, s), location: subst_location(s, a.location) }
}

pub open spec fn subst_statements(st: Seq<AssignmentModel>, s: Map<usize, usize>) -> Seq<AssignmentModel>
    decreases st,
{
    Seq::new(st.len(), |i: int| if 0 <= i < st.len() { subst_statement(st[i], s) } else { st[i] })
}

pub open spec fn subst_block(b: BlockModel, s: Map<usize, usize>) -> BlockModel
    decreases b,
{
    BlockModel { statements: subst_statements(b.statements, s), ret: subst_value(b.ret, s) }
}

// ---------------------------------------------------------------------------
// Targets: the locations assigned to, in order of appearance.

pub open spec fn expression_targets(e: ExpressionModel) -> Seq<usize>
    decreases e,
{
    match e {
        ExpressionModel::Lambda(l) => block_targets(l.block),
        ExpressionModel::If(_, t, f) => block_targets(t) + block_targets(f),
        ExpressionModel::Match(_, bs) => branches_targets(bs),
        _ => Seq::empty(),
    }
}

pub open spec fn branches_targets(bs: Seq<BranchModel>) -> Seq<usize>
    decreases bs,
{
    if bs.len() == 0 {
        Seq::empty()
    } else {
        branches_targets(bs.drop_last()) + block_targets(bs.last().block)
    }
}

pub open spec fn statement_targets(a: AssignmentModel) -> Seq<usize>
    decreases a,
{
    expression_targets(a.expression).push(a.location)
}

pub open spec fn statements_targets(st: Seq<AssignmentModel>) -> Seq<usize>
    decreases st,
{
    if st.len() == 0 {
        Seq::empty()
    } else {
        statements_targets(st.drop_last()) + statement_targets(st.last())
    }
}

pub open spec fn block_targets(b: BlockModel) -> Seq<usize>
    decreases b,
{
    statements_targets(b.statements)
}

// ---------------------------------------------------------------------------
// Values used, in order of appearance.

/// The values that are not the argument bound by a match branch.
pub open spec fn not_branch_target(target: Option<SlotModel>) -> spec_fn(ValueModel) -> bool {
    |v: ValueModel| !is_branch_target(v, target)
}

/// Whether a value is the argument bound by a match branch.
pub open spec fn is_branch_target(v: ValueModel, target: Option<SlotModel>) -> bool {
    match (v, target) {
        (ValueModel::Arg(a), Some(t)) => a.location == t.location,
        _ => false,
    }
}

pub open spec fn expression_values(e: ExpressionModel) -> Seq<ValueModel>
    decreases e,
{
    match e {
        ExpressionModel::Value(v) => seq![v],
        ExpressionModel::ElementAccess(v, _) => seq![v],
        ExpressionModel::Tuple(vs) => vs,
        ExpressionModel::FnCall(f, args) => args.push(f),
        ExpressionModel::CtorCall(_, d, _) => match d {
            None => Seq::empty(),
            Some(v) => seq![v],
        },
        ExpressionModel::Lambda(l) => open_vars(l),
        ExpressionModel::If(c, t, f) => (block_values(t) + block_values(f)).push(c),
        ExpressionModel::Match(v, bs) => branches_values(bs).push(v),
    }
}

pub open spec fn branches_values(bs: Seq<BranchModel>) -> Seq<ValueModel>
    decreases bs,
{
    if bs.len() == 0 {
        Seq::empty()
    } else {
        let b = bs.last();
        branches_values(bs.drop_last()) + block_values(b.block).filter(not_branch_target(b.target))
    }
}

pub open spec fn statements_values(st: Seq<AssignmentModel>) -> Seq<ValueModel>
    decreases st,
{
    if st.len() == 0 {
        Seq::empty()
    } else {
        statements_values(st.drop_last()) + expression_values(st.last().expression)
    }
}

pub open spec fn block_values(b: BlockModel) -> Seq<ValueModel>
    decreases b,
{
    statements_values(b.statements).push(b.ret)
}

/// Whether a location is bound inside a lambda: it is one of the lambda's
/// arguments or a target of its body.
pub open spec fn is_bound(l: LambdaModel, loc: usize) -> bool {
    block_targets(l.block).contains(loc) || exists|i: int| 0 <= i < l.args.len() && #[trigger] l.args[i].location == loc
}

/// Whether a value refers to a location that the lambda does not bind.
pub open spec fn is_open_in(v: ValueModel, l: LambdaModel) -> bool {
    match value_location(v) {
        None => false,
        Some(loc) => !is_bound(l, loc),
    }
}

/// The values that are open in a lambda.
pub open spec fn open_in(l: LambdaModel) -> spec_fn(ValueModel) -> bool {
    |v: ValueModel| is_open_in(v, l)
}

/// Whether two values denote the same value: the same built-in, or the same kind
/// of slot (memory or argument) at the same location.
pub open spec fn same_value(a: ValueModel, b: ValueModel) -> bool {
    match (a, b) {
        (ValueModel::BuiltIn(x), ValueModel::BuiltIn(y)) => x == y,
        (ValueModel::Memory(x), ValueModel::Memory(y)) => x.location == y.location,
        (ValueModel::Arg(x), ValueModel::Arg(y)) => x.location == y.location,
        _ => false,
    }
}

/// Whether a sequence holds a value that denotes the same value as `v`.
pub open spec fn contains_same(vs: Seq<ValueModel>, v: ValueModel) -> bool {
    exists|i: int| 0 <= i < vs.len() && same_value(#[trigger] vs[i], v)
}

/// The first occurrence of each value of a sequence, in order.
pub open spec fn unique_values(vs: Seq<ValueModel>) -> Seq<ValueModel>
    decreases vs.len(),
{
    if vs.len() == 0 {
        Seq::empty()
    } else {
        let rest = unique_values(vs.drop_last());
        if contains_same(rest, vs.last()) { rest } else { rest.push(vs.last()) }
    }
}

/// The open variables of a lambda: the values its body uses whose location the
/// lambda does not bind, without repetition, in order of first use.
pub open spec fn open_vars(l: LambdaModel) -> Seq<ValueModel>
    decreases l,
{
    unique_values(block_values(l.block).filter(open_in(l)))
}

} // verus!
