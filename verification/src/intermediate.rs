//! The intermediate representation produced by lowering: values live in
//! uniquely numbered locations and every expression is bound to a location.

use vstd::prelude::*;
use crate::atoms::{AtomicTypeEnum, Boolean, Id, Integer};
use crate::ir_model::{
    AssignmentModel, BlockModel, BranchModel, BuiltInModel, ExpressionModel, LambdaModel,
    SlotModel, TypeModel, ValueModel,
};

verus! {

/// A location (register) of the intermediate representation, named by its number.
#[derive(Clone, Copy, Debug, PartialEq, Eq, Structural, Hash, PartialOrd, Ord)]
pub struct Location(pub usize);

impl Location {
    /// The location with the given number.
    pub fn new(id: usize) -> (location: Location)
        ensures
            location.0 == id,
    {
        Location(id)
    }
}

/// A supply of fresh locations: it hands out the numbers in order, so each
/// location it gives differs from every one it gave before.
pub struct LocationSupply {
    next: usize,
}

impl LocationSupply {
    /// The number that the supply hands out next; every location it gave
    /// before has a smaller number.
    pub closed spec fn next(&self) -> nat {
        self.next as nat
    }

    /// A supply that has handed out nothing.
    pub fn new() -> (res: Self)
        ensures
            res.next() == 0,
    {
        LocationSupply { next: 0 }
    }

    /// A location that differs from every location handed out before.
    pub fn fresh(&mut self) -> (location: Location)
        requires
            old(self).next() < usize::MAX,
        ensures
            location.0 == old(self).next(),
            final(self).next() == old(self).next() + 1,
            forall|earlier: Location| earlier.0 < old(self).next() ==> location != earlier,
    {
        let location = Location(self.next);
        self.next = self.next + 1;
        location
    }
}

#[derive(Clone, Copy, Debug, PartialEq, Eq, Structural, Hash)]
pub struct AtomicType(pub AtomicTypeEnum);

/// An intermediate type. `Reference(i)` refers to entry `i` of the program's
/// table of type definitions, which lets union types be recursive.
#[derive(Debug, PartialEq, Eq, Hash)]
pub enum IntermediateType {
    AtomicType(AtomicType),
    IntermediateTupleType(IntermediateTupleType),
    IntermediateFnType(IntermediateFnType),
    IntermediateUnionType(IntermediateUnionType),
    Reference(usize),
}

#[derive(Debug, PartialEq, Eq, Hash)]
pub struct IntermediateTupleType(pub Vec<IntermediateType>);

#[derive(Debug, PartialEq, Eq, Hash)]
pub struct IntermediateFnType(pub Vec<IntermediateType>, pub Box<IntermediateType>);

#[derive(Debug, PartialEq, Eq, Hash)]
pub struct IntermediateUnionType(pub Vec<Option<IntermediateType>>);

#[derive(Debug, PartialEq, Eq, Hash)]
pub struct BuiltInFn(pub Id, pub IntermediateFnType);

#[derive(Debug, PartialEq, Eq, Hash)]
pub enum IntermediateBuiltIn {
    Integer(Integer),
    Boolean(Boolean),
    BuiltInFn(BuiltInFn),
}

#[derive(Debug, PartialEq, Eq, Hash)]
pub struct IntermediateMemory {
    pub type_: IntermediateType,
    pub location: Location,
}

#[derive(Debug, PartialEq, Eq, Hash)]
pub struct IntermediateArg {
    pub type_: IntermediateType,
    pub location: Location,
}

#[derive(Debug, PartialEq, Eq, Hash)]
pub enum IntermediateValue {
    IntermediateBuiltIn(IntermediateBuiltIn),
    IntermediateMemory(IntermediateMemory),
    IntermediateArg(IntermediateArg),
}

#[derive(Debug, PartialEq, Eq, Hash)]
pub struct IntermediateElementAccess {
    pub value: IntermediateValue,
    pub idx: usize,
}

#[derive(Debug, PartialEq, Eq, Hash)]
pub struct IntermediateTupleExpression(pub Vec<IntermediateValue>);

#[derive(Debug, PartialEq, Eq, Hash)]
pub struct IntermediateFnCall {
    pub fn_: IntermediateValue,
    pub args: Vec<IntermediateValue>,
}

#[derive(Debug, PartialEq, Eq, Hash)]
pub struct IntermediateCtorCall {
    pub idx: usize,
    pub data: Option<IntermediateValue>,
    pub type_: IntermediateUnionType,
}

#[derive(Debug, PartialEq, Eq, Hash)]
pub struct IntermediateBlock {
    pub statements: Vec<IntermediateStatement>,
    pub ret: IntermediateValue,
}

#[derive(Debug, PartialEq, Eq, Hash)]
pub struct IntermediateLambda {
    pub args: Vec<IntermediateArg>,
    pub block: IntermediateBlock,
}

#[derive(Debug, PartialEq, Eq, Hash)]
pub struct IntermediateIf {
    pub condition: IntermediateValue,
    pub branches: (IntermediateBlock, IntermediateBlock),
}

#[derive(Debug, PartialEq, Eq, Hash)]
pub struct IntermediateMatchBranch {
    pub target: Option<IntermediateArg>,
    pub block: IntermediateBlock,
}

#[derive(Debug, PartialEq, Eq, Hash)]
pub struct IntermediateMatch {
    pub subject: IntermediateValue,
    pub branches: Vec<IntermediateMatchBranch>,
}

#[derive(Debug, PartialEq, Eq, Hash)]
pub enum IntermediateExpression {
    IntermediateValue(IntermediateValue),
    IntermediateElementAccess(IntermediateElementAccess),
    IntermediateTupleExpression(IntermediateTupleExpression),
    IntermediateFnCall(IntermediateFnCall),
    IntermediateCtorCall(IntermediateCtorCall),
    IntermediateLambda(IntermediateLambda),
    IntermediateIf(IntermediateIf),
    IntermediateMatch(IntermediateMatch),
}

#[derive(Debug, PartialEq, Eq, Hash)]
pub struct IntermediateAssignment {
    pub expression: IntermediateExpression,
    pub location: Location,
}

#[derive(Debug, PartialEq, Eq, Hash)]
pub enum IntermediateStatement {
    IntermediateAssignment(IntermediateAssignment),
}

/// A lowered program: the main lambda and the table of type definitions that
/// `Reference` types point into.
#[derive(Debug, PartialEq, Eq)]
pub struct IntermediateProgram {
    pub main: IntermediateLambda,
    pub types: Vec<IntermediateType>,
}

// ---------------------------------------------------------------------------
// Views.

pub open spec fn type_view(t: IntermediateType) -> TypeModel
    decreases t,
{
    match t {
        IntermediateType::AtomicType(AtomicType(a)) => TypeModel::Atomic(a),
        IntermediateType::IntermediateTupleType(IntermediateTupleType(ts)) => TypeModel::Tuple(
            Seq::new(ts@.len(), |i: int| if 0 <= i < ts@.len() { type_view(ts@[i]) } else { TypeModel::Reference(0) }),
        ),
        IntermediateType::IntermediateFnType(IntermediateFnType(args, ret)) => TypeModel::Function(
            Seq::new(args@.len(), |i: int| if 0 <= i < args@.len() { type_view(args@[i]) } else { TypeModel::Reference(0) }),
            Box::new(type_view(*ret)),
        ),
        IntermediateType::IntermediateUnionType(IntermediateUnionType(vs)) => TypeModel::Union(
            Seq::new(vs@.len(), |i: int| if 0 <= i < vs@.len() {
                match vs@[i] {
                    None => None,
                    Some(t) => Some(type_view(t)),
                }
            } else {
                None
            }),
        ),
        IntermediateType::Reference(i) => TypeModel::Reference(i),
    }
}

pub open spec fn types_view(ts: Seq<IntermediateType>) -> Seq<TypeModel> {
    ts.map_values(|t: IntermediateType| type_view(t))
}

pub open spec fn option_type_view(t: Option<IntermediateType>) -> Option<TypeModel> {
    match t {
        None => None,
        Some(t) => Some(type_view(t)),
    }
}

pub open spec fn variants_view(vs: Seq<Option<IntermediateType>>) -> Seq<Option<TypeModel>> {
    vs.map_values(|t: Option<IntermediateType>| option_type_view(t))
}

/// The model of a tuple type is the tuple of the models of its elements.
pub proof fn lemma_tuple_type_view(ts: Vec<IntermediateType>)
    ensures
        type_view(IntermediateType::IntermediateTupleType(IntermediateTupleType(ts)))
            == TypeModel::Tuple(types_view(ts@)),
{
    let t = type_view(IntermediateType::IntermediateTupleType(IntermediateTupleType(ts)));
    assert(t->Tuple_0 =~= types_view(ts@));
}

/// The model of a function type holds the models of its argument and return types.
pub proof fn lemma_fn_type_view(args: Vec<IntermediateType>, ret: Box<IntermediateType>)
    ensures
        type_view(IntermediateType::IntermediateFnType(IntermediateFnType(args, ret)))
            == TypeModel::Function(types_view(args@), Box::new(type_view(*ret))),
{
    let t = type_view(IntermediateType::IntermediateFnType(IntermediateFnType(args, ret)));
    assert(t->Function_0 =~= types_view(args@));
}

/// The model of a union type holds the models of its variants.
pub proof fn lemma_union_type_view(vs: Vec<Option<IntermediateType>>)
    ensures
        type_view(IntermediateType::IntermediateUnionType(IntermediateUnionType(vs)))
            == TypeModel::Union(variants_view(vs@)),
{
    let t = type_view(IntermediateType::IntermediateUnionType(IntermediateUnionType(vs)));
    assert(t->Union_0 =~= variants_view(vs@));
}

impl View for IntermediateType {
    type V = TypeModel;

    open spec fn view(&self) -> TypeModel {
        type_view(*self)
    }
}

impl View for IntermediateFnType {
    type V = TypeModel;

    open spec fn view(&self) -> TypeModel {
        type_view(IntermediateType::IntermediateFnType(*self))
    }
}

impl View for IntermediateUnionType {
    type V = Seq<Option<TypeModel>>;

    open spec fn view(&self) -> Seq<Option<TypeModel>> {
        variants_view(self.0@)
    }
}

pub open spec fn builtin_view(b: IntermediateBuiltIn) -> BuiltInModel {
    match b {
        IntermediateBuiltIn::Integer(i) => BuiltInModel::Integer(i.value),
        IntermediateBuiltIn::Boolean(b) => BuiltInModel::Boolean(b.value),
        IntermediateBuiltIn::BuiltInFn(BuiltInFn(name, IntermediateFnType(args, ret))) =>
            BuiltInModel::Function(name@, types_view(args@), type_view(*ret)),
    }
}

impl View for IntermediateBuiltIn {
    type V = BuiltInModel;

    open spec fn view(&self) -> BuiltInModel {
        builtin_view(*self)
    }
}

impl View for IntermediateMemory {
    type V = SlotModel;

    open spec fn view(&self) -> SlotModel {
        SlotModel { type_: self.type_@, location: self.location.0 }
    }
}

impl View for IntermediateArg {
    type V = SlotModel;

    open spec fn view(&self) -> SlotModel {
        SlotModel { type_: self.type_@, location: self.location.0 }
    }
}

pub open spec fn value_view(v: IntermediateValue) -> ValueModel {
    match v {
        IntermediateValue::IntermediateBuiltIn(b) => ValueModel::BuiltIn(b@),
        IntermediateValue::IntermediateMemory(m) => ValueModel::Memory(m@),
        IntermediateValue::IntermediateArg(a) => ValueModel::Arg(a@),
    }
}

impl View for IntermediateValue {
    type V = ValueModel;

    open spec fn view(&self) -> ValueModel {
        value_view(*self)
    }
}

pub open spec fn values_view(vs: Seq<IntermediateValue>) -> Seq<ValueModel> {
    vs.map_values(|v: IntermediateValue| value_view(v))
}

pub open spec fn args_view(args: Seq<IntermediateArg>) -> Seq<SlotModel> {
    args.map_values(|a: IntermediateArg| a@)
}

pub open spec fn option_arg_view(a: Option<IntermediateArg>) -> Option<SlotModel> {
    match a {
        None => None,
        Some(a) => Some(a@),
    }
}

pub open spec fn option_value_view(v: Option<IntermediateValue>) -> Option<ValueModel> {
    match v {
        None => None,
        Some(v) => Some(value_view(v)),
    }
}

pub open spec fn expression_view(e: IntermediateExpression) -> ExpressionModel
    decreases e,
{
    match e {
        IntermediateExpression::IntermediateValue(v) => ExpressionModel::Value(v@),
        IntermediateExpression::IntermediateElementAccess(IntermediateElementAccess { value, idx }) =>
            ExpressionModel::ElementAccess(value@, idx),
        IntermediateExpression::IntermediateTupleExpression(IntermediateTupleExpression(vs)) =>
            ExpressionModel::Tuple(values_view(vs@)),
        IntermediateExpression::IntermediateFnCall(IntermediateFnCall { fn_, args }) =>
            ExpressionModel::FnCall(fn_@, values_view(args@)),
        IntermediateExpression::IntermediateCtorCall(IntermediateCtorCall { idx, data, type_ }) =>
            ExpressionModel::CtorCall(idx, option_value_view(data), type_@),
        IntermediateExpression::IntermediateLambda(l) => ExpressionModel::Lambda(lambda_view(l)),
        IntermediateExpression::IntermediateIf(IntermediateIf { condition, branches }) =>
            ExpressionModel::If(condition@, block_view(branches.0), block_view(branches.1)),
        IntermediateExpression::IntermediateMatch(IntermediateMatch { subject, branches }) =>
            ExpressionModel::Match(subject@, Seq::new(branches@.len(), |i: int|
                if 0 <= i < branches@.len() {
                    branch_view(branches@[i])
                } else {
                    BranchModel { target: None, block: BlockModel { statements: Seq::empty(), ret: subject@ } }
                })),
    }
}

pub open spec fn branch_view(b: IntermediateMatchBranch) -> BranchModel
    decreases b,
{
    BranchModel { target: option_arg_view(b.target), block: block_view(b.block) }
}

pub open spec fn lambda_view(l: IntermediateLambda) -> LambdaModel
    decreases l,
{
    LambdaModel { args: args_view(l.args@), block: block_view(l.block) }
}

pub open spec fn statement_view(s: IntermediateStatement) -> AssignmentModel
    decreases s,
{
    match s {
        IntermediateStatement::IntermediateAssignment(a) =>
            AssignmentModel { expression: expression_view(a.expression), location: a.location.0 },
    }
}

pub open spec fn block_view(b: IntermediateBlock) -> BlockModel
    decreases b,
{
    BlockModel {
        statements: Seq::new(b.statements@.len(), |i: int|
            if 0 <= i < b.statements@.len() {
                statement_view(b.statements@[i])
            } else {
                AssignmentModel { expression: ExpressionModel::Value(b.ret@), location: 0 }
            }),
        ret: b.ret@,
    }
}

pub open spec fn statements_view(st: Seq<IntermediateStatement>) -> Seq<AssignmentModel> {
    st.map_values(|s: IntermediateStatement| statement_view(s))
}

pub open spec fn branches_view(bs: Seq<IntermediateMatchBranch>) -> Seq<BranchModel> {
    bs.map_values(|b: IntermediateMatchBranch| branch_view(b))
}

/// The model of a block holds the models of its statements.
pub proof fn lemma_block_view(b: IntermediateBlock)
    ensures
        block_view(b).statements == statements_view(b.statements@),
        block_view(b).ret == b.ret@,
{
    assert(block_view(b).statements =~= statements_view(b.statements@));
}

/// The model of a match expression holds the models of its branches.
pub proof fn lemma_match_view(m: IntermediateMatch)
    ensures
        expression_view(IntermediateExpression::IntermediateMatch(m))
            == ExpressionModel::Match(m.subject@, branches_view(m.branches@)),
{
    let e = expression_view(IntermediateExpression::IntermediateMatch(m));
    assert(e->Match_1 =~= branches_view(m.branches@));
}

impl View for IntermediateExpression {
    type V = ExpressionModel;

    open spec fn view(&self) -> ExpressionModel {
        expression_view(*self)
    }
}

impl View for IntermediateStatement {
    type V = AssignmentModel;

    open spec fn view(&self) -> AssignmentModel {
        statement_view(*self)
    }
}

impl View for IntermediateAssignment {
    type V = AssignmentModel;

    open spec fn view(&self) -> AssignmentModel {
        AssignmentModel { expression: expression_view(self.expression), location: self.location.0 }
    }
}

impl View for IntermediateBlock {
    type V = BlockModel;

    open spec fn view(&self) -> BlockModel {
        block_view(*self)
    }
}

impl View for IntermediateLambda {
    type V = LambdaModel;

    open spec fn view(&self) -> LambdaModel {
        lambda_view(*self)
    }
}

impl View for IntermediateMatchBranch {
    type V = BranchModel;

    open spec fn view(&self) -> BranchModel {
        branch_view(*self)
    }
}

} // verus!
