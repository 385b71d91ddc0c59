//! The machine representation: nodes that mirror the generated C++ code.

use vstd::prelude::*;
use crate::atoms::{AtomicTypeEnum, Boolean, Id, Integer, Name};

verus! {

#[derive(Clone, Copy, Debug, PartialEq, Eq, Structural, Hash)]
pub struct AtomicType(pub AtomicTypeEnum);

/// A type of the generated code.
#[derive(Debug, PartialEq, Eq, Hash)]
pub enum MachineType {
    AtomicType(AtomicType),
    TupleType(TupleType),
    FnType(FnType),
    WeakFnType(FnType),
    UnionType(UnionType),
    NamedType(Name),
}

#[derive(Debug, PartialEq, Eq, Hash)]
pub struct TupleType(pub Vec<MachineType>);

#[derive(Debug, PartialEq, Eq, Hash)]
pub struct FnType(pub Vec<MachineType>, pub Box<MachineType>);

/// A union type, given by the names of its constructors.
#[derive(Debug, PartialEq, Eq, Hash)]
pub struct UnionType(pub Vec<Name>);

/// A named union type and its constructors, each with the type of its data, if any.
#[derive(Debug, PartialEq)]
pub struct TypeDef {
    pub name: Name,
    pub constructors: Vec<(Name, Option<MachineType>)>,
}

/// A named location of the generated code.
#[derive(Debug, PartialEq, Eq, Hash, PartialOrd, Ord)]
pub struct Memory(pub Id);

#[derive(Debug, PartialEq)]
pub enum BuiltIn {
    Integer(Integer),
    Boolean(Boolean),
    BuiltInFn(Name),
}

#[derive(Debug, PartialEq)]
pub enum Value {
    BuiltIn(BuiltIn),
    Memory(Memory),
}

#[derive(Debug, PartialEq)]
pub struct ElementAccess {
    pub value: Value,
    pub idx: usize,
}

#[derive(Debug, PartialEq)]
pub struct TupleExpression(pub Vec<Value>);

#[derive(Debug, PartialEq)]
pub struct FnCall {
    pub fn_: Value,
    pub fn_type: FnType,
    pub args: Vec<Value>,
}

/// A call of the `idx`-th constructor of the union type named `type_`, with
/// the constructor's name and its data, if any.
#[derive(Debug, PartialEq)]
pub struct ConstructorCall {
    pub type_: Name,
    pub idx: usize,
    pub data: Option<(Name, Value)>,
}

#[derive(Debug, PartialEq)]
pub struct ClosureInstantiation {
    pub name: Name,
    pub env: Option<Value>,
}

#[derive(Debug, PartialEq)]
pub enum Expression {
    Value(Value),
    ElementAccess(ElementAccess),
    TupleExpression(TupleExpression),
    FnCall(FnCall),
    ConstructorCall(ConstructorCall),
    ClosureInstantiation(ClosureInstantiation),
}

#[derive(Debug, PartialEq)]
pub struct Await(pub Vec<Memory>);

#[derive(Debug, PartialEq, Eq, Hash)]
pub struct Declaration {
    pub type_: MachineType,
    pub memory: Memory,
}

/// An allocator named `name`, stored at `target`, that holds the closures of
/// a cycle of functions: each closure's memory and the name of its function.
#[derive(Debug, PartialEq, Eq, Hash)]
pub struct Allocation {
    pub name: Name,
    pub fns: Vec<(Memory, Name)>,
    pub target: Memory,
}

#[derive(Debug, PartialEq)]
pub struct Assignment {
    pub target: Memory,
    pub value: Expression,
}

#[derive(Debug, PartialEq)]
pub struct IfStatement {
    pub condition: Value,
    pub branches: (Vec<Statement>, Vec<Statement>),
}

#[derive(Debug, PartialEq)]
pub struct MatchStatement {
    pub expression: (Value, UnionType),
    pub branches: Vec<MatchBranch>,
    pub auxiliary_memory: Memory,
}

#[derive(Debug, PartialEq)]
pub struct MatchBranch {
    pub target: Option<Memory>,
    pub statements: Vec<Statement>,
}

#[derive(Debug, PartialEq)]
pub enum Statement {
    Await(Await),
    Declaration(Declaration),
    Allocation(Allocation),
    Assignment(Assignment),
    IfStatement(IfStatement),
    MatchStatement(MatchStatement),
}

/// A generated function: arguments, body, returned value and type, the types
/// of its environment, the declarations it allocates, bounds on its code size
/// and whether it may call itself. The compiler leaves the bounds at zero and
/// marks no function as recursive; the emitter prints whatever they hold.
#[derive(Debug, PartialEq)]
pub struct FnDef {
    pub name: Name,
    pub arguments: Vec<(Memory, MachineType)>,
    pub statements: Vec<Statement>,
    pub ret: (Value, MachineType),
    pub env: Vec<MachineType>,
    pub allocations: Vec<Declaration>,
    pub size_bounds: (usize, usize),
    pub is_recursive: bool,
}

#[derive(Debug, PartialEq)]
pub struct Program {
    pub type_defs: Vec<TypeDef>,
    pub fn_defs: Vec<FnDef>,
}

// ---------------------------------------------------------------------------
// Models.

pub enum MachineTypeModel {
    Atomic(AtomicTypeEnum),
    Tuple(Seq<MachineTypeModel>),
    Function(Seq<MachineTypeModel>, Box<MachineTypeModel>),
    WeakFunction(Seq<MachineTypeModel>, Box<MachineTypeModel>),
    Union(Seq<Seq<char>>),
    Named(Seq<char>),
}

pub enum ValueModel {
    Integer(i64),
    Boolean(bool),
    BuiltInFn(Seq<char>),
    Memory(Seq<char>),
}

pub enum ExpressionModel {
    Value(ValueModel),
    ElementAccess(ValueModel, usize),
    Tuple(Seq<ValueModel>),
    FnCall(ValueModel, MachineTypeModel, Seq<ValueModel>),
    ConstructorCall(Seq<char>, usize, Option<(Seq<char>, ValueModel)>),
    ClosureInstantiation(Seq<char>, Option<ValueModel>),
}

pub enum StatementModel {
    Await(Seq<Seq<char>>),
    Declaration(MachineTypeModel, Seq<char>),
    Allocation(Seq<char>, Seq<(Seq<char>, Seq<char>)>, Seq<char>),
    Assignment(Seq<char>, ExpressionModel),
    If(ValueModel, Seq<StatementModel>, Seq<StatementModel>),
    Match(ValueModel, Seq<Seq<char>>, Seq<(Option<Seq<char>>, Seq<StatementModel>)>, Seq<char>),
}

pub open spec fn machine_type_view(t: MachineType) -> MachineTypeModel
    decreases t,
{
    match t {
        MachineType::AtomicType(AtomicType(a)) => MachineTypeModel::Atomic(a),
        MachineType::TupleType(TupleType(ts)) => MachineTypeModel::Tuple(
            Seq::new(ts@.len(), |i: int| if 0 <= i < ts@.len() { machine_type_view(ts@[i]) } else { MachineTypeModel::Named(Seq::empty()) }),
        ),
        MachineType::FnType(FnType(args, ret)) => MachineTypeModel::Function(
            Seq::new(args@.len(), |i: int| if 0 <= i < args@.len() { machine_type_view(args@[i]) } else { MachineTypeModel::Named(Seq::empty()) }),
            Box::new(machine_type_view(*ret)),
        ),
        MachineType::WeakFnType(FnType(args, ret)) => MachineTypeModel::WeakFunction(
            Seq::new(args@.len(), |i: int| if 0 <= i < args@.len() { machine_type_view(args@[i]) } else { MachineTypeModel::Named(Seq::empty()) }),
            Box::new(machine_type_view(*ret)),
        ),
        MachineType::UnionType(UnionType(names)) => MachineTypeModel::Union(names@.map_values(|n: Name| n@)),
        MachineType::NamedType(n) => MachineTypeModel::Named(n@),
    }
}

pub open spec fn machine_types_view(ts: Seq<MachineType>) -> Seq<MachineTypeModel> {
    ts.map_values(|t: MachineType| machine_type_view(t))
}

pub open spec fn names_view(ns: Seq<Name>) -> Seq<Seq<char>> {
    ns.map_values(|n: Name| n@)
}

impl View for MachineType {
    type V = MachineTypeModel;

    open spec fn view(&self) -> MachineTypeModel {
        machine_type_view(*self)
    }
}

impl View for FnType {
    type V = MachineTypeModel;

    open spec fn view(&self) -> MachineTypeModel {
        machine_type_view(MachineType::FnType(*self))
    }
}

/// The model of a tuple type holds the models of its elements.
pub proof fn lemma_machine_tuple_view(ts: Vec<MachineType>)
    ensures
        machine_type_view(MachineType::TupleType(TupleType(ts))) == MachineTypeModel::Tuple(machine_types_view(ts@)),
{
    let t = machine_type_view(MachineType::TupleType(TupleType(ts)));
    assert(t->Tuple_0 =~= machine_types_view(ts@));
}

/// The model of a function type holds the models of its argument and return types.
pub proof fn lemma_machine_fn_view(args: Vec<MachineType>, ret: Box<MachineType>)
    ensures
        machine_type_view(MachineType::FnType(FnType(args, ret)))
            == MachineTypeModel::Function(machine_types_view(args@), Box::new(machine_type_view(*ret))),
        machine_type_view(MachineType::WeakFnType(FnType(args, ret)))
            == MachineTypeModel::WeakFunction(machine_types_view(args@), Box::new(machine_type_view(*ret))),
{
    let t = machine_type_view(MachineType::FnType(FnType(args, ret)));
    assert(t->Function_0 =~= machine_types_view(args@));
    let w = machine_type_view(MachineType::WeakFnType(FnType(args, ret)));
    assert(w->WeakFunction_0 =~= machine_types_view(args@));
}

impl View for Memory {
    type V = Seq<char>;

    open spec fn view(&self) -> Seq<char> {
        self.0@
    }
}

pub open spec fn memories_view(ms: Seq<Memory>) -> Seq<Seq<char>> {
    ms.map_values(|m: Memory| m@)
}

pub open spec fn value_view(v: Value) -> ValueModel {
    match v {
        Value::BuiltIn(BuiltIn::Integer(i)) => ValueModel::Integer(i.value),
        Value::BuiltIn(BuiltIn::Boolean(b)) => ValueModel::Boolean(b.value),
        Value::BuiltIn(BuiltIn::BuiltInFn(n)) => ValueModel::BuiltInFn(n@),
        Value::Memory(m) => ValueModel::Memory(m@),
    }
}

impl View for Value {
    type V = ValueModel;

    open spec fn view(&self) -> ValueModel {
        value_view(*self)
    }
}

pub open spec fn values_view(vs: Seq<Value>) -> Seq<ValueModel> {
    vs.map_values(|v: Value| v@)
}

pub open spec fn expression_view(e: Expression) -> ExpressionModel {
    match e {
        Expression::Value(v) => ExpressionModel::Value(v@),
        Expression::ElementAccess(a) => ExpressionModel::ElementAccess(a.value@, a.idx),
        Expression::TupleExpression(TupleExpression(vs)) => ExpressionModel::Tuple(values_view(vs@)),
        Expression::FnCall(f) => ExpressionModel::FnCall(f.fn_@, f.fn_type@, values_view(f.args@)),
        Expression::ConstructorCall(c) => ExpressionModel::ConstructorCall(c.type_@, c.idx, match c.data {
            None => None,
            Some((n, v)) => Some((n@, v@)),
        }),
        Expression::ClosureInstantiation(c) => ExpressionModel::ClosureInstantiation(c.name@, match c.env {
            None => None,
            Some(v) => Some(v@),
        }),
    }
}

impl View for Expression {
    type V = ExpressionModel;

    open spec fn view(&self) -> ExpressionModel {
        expression_view(*self)
    }
}

pub open spec fn allocation_fns_view(fns: Seq<(Memory, Name)>) -> Seq<(Seq<char>, Seq<char>)> {
    fns.map_values(|p: (Memory, Name)| (p.0@, p.1@))
}

pub open spec fn statement_view(s: Statement) -> StatementModel
    decreases s,
{
    match s {
        Statement::Await(Await(ms)) => StatementModel::Await(memories_view(ms@)),
        Statement::Declaration(d) => StatementModel::Declaration(d.type_@, d.memory@),
        Statement::Allocation(a) => StatementModel::Allocation(a.name@, allocation_fns_view(a.fns@), a.target@),
        Statement::Assignment(a) => StatementModel::Assignment(a.target@, a.value@),
        Statement::IfStatement(i) => StatementModel::If(
            i.condition@,
            Seq::new(i.branches.0@.len(), |k: int| if 0 <= k < i.branches.0@.len() { statement_view(i.branches.0@[k]) } else { StatementModel::Await(Seq::empty()) }),
            Seq::new(i.branches.1@.len(), |k: int| if 0 <= k < i.branches.1@.len() { statement_view(i.branches.1@[k]) } else { StatementModel::Await(Seq::empty()) }),
        ),
        Statement::MatchStatement(m) => StatementModel::Match(
            m.expression.0@,
            names_view(m.expression.1.0@),
            Seq::new(m.branches@.len(), |k: int| if 0 <= k < m.branches@.len() {
                (match m.branches@[k].target {
                    None => None,
                    Some(t) => Some(t@),
                }, Seq::new(m.branches@[k].statements@.len(), |j: int| if 0 <= j < m.branches@[k].statements@.len() {
                    statement_view(m.branches@[k].statements@[j])
                } else {
                    StatementModel::Await(Seq::empty())
                }))
            } else {
                (None, Seq::empty())
            }),
            m.auxiliary_memory@,
        ),
    }
}

pub open spec fn statements_view(st: Seq<Statement>) -> Seq<StatementModel> {
    st.map_values(|s: Statement| statement_view(s))
}

impl View for Statement {
    type V = StatementModel;

    open spec fn view(&self) -> StatementModel {
        statement_view(*self)
    }
}

/// The model of a conditional holds the models of its branches.
pub proof fn lemma_if_view(i: IfStatement)
    ensures
        statement_view(Statement::IfStatement(i))
            == StatementModel::If(i.condition@, statements_view(i.branches.0@), statements_view(i.branches.1@)),
{
    let s = statement_view(Statement::IfStatement(i));
    assert(s->If_1 =~= statements_view(i.branches.0@));
    assert(s->If_2 =~= statements_view(i.branches.1@));
}

/// The model of a branch of a match.
pub open spec fn match_branch_view(b: MatchBranch) -> (Option<Seq<char>>, Seq<StatementModel>) {
    (match b.target {
        None => None,
        Some(t) => Some(t@),
    }, statements_view(b.statements@))
}

/// The model of a match holds the models of its branches.
pub proof fn lemma_match_statement_view(m: MatchStatement)
    ensures
        statement_view(Statement::MatchStatement(m)) == StatementModel::Match(
            m.expression.0@,
            names_view(m.expression.1.0@),
            m.branches@.map_values(|b: MatchBranch| match_branch_view(b)),
            m.auxiliary_memory@,
        ),
{
    let s = statement_view(Statement::MatchStatement(m));
    assert forall|k: int| 0 <= k < m.branches@.len() implies s->Match_2[k] == match_branch_view(m.branches@[k]) by {
        assert(s->Match_2[k].1 =~= statements_view(m.branches@[k].statements@));
    }
    assert(s->Match_2 =~= m.branches@.map_values(|b: MatchBranch| match_branch_view(b)));
}

/// The model of a type definition: its name and its constructors, each with
/// the model of the type of its data, if any.
pub struct TypeDefModel {
    pub name: Seq<char>,
    pub constructors: Seq<(Seq<char>, Option<MachineTypeModel>)>,
}

pub open spec fn constructor_view(c: (Name, Option<MachineType>)) -> (Seq<char>, Option<MachineTypeModel>) {
    (c.0@, match c.1 {
        None => None,
        Some(t) => Some(t@),
    })
}

pub open spec fn constructors_view(cs: Seq<(Name, Option<MachineType>)>) -> Seq<(Seq<char>, Option<MachineTypeModel>)> {
    cs.map_values(|c: (Name, Option<MachineType>)| constructor_view(c))
}

impl View for TypeDef {
    type V = TypeDefModel;

    open spec fn view(&self) -> TypeDefModel {
        TypeDefModel { name: self.name@, constructors: constructors_view(self.constructors@) }
    }
}

pub open spec fn type_defs_view(ds: Seq<TypeDef>) -> Seq<TypeDefModel> {
    ds.map_values(|d: TypeDef| d@)
}

/// The names of the types that a type mentions, in order of mention.
pub open spec fn used_types(t: MachineTypeModel) -> Seq<Seq<char>>
    decreases t,
{
    match t {
        MachineTypeModel::Atomic(_) => Seq::empty(),
        MachineTypeModel::Tuple(ts) => all_used_types(ts),
        MachineTypeModel::Function(args, ret) => all_used_types(args) + used_types(*ret),
        MachineTypeModel::WeakFunction(args, ret) => all_used_types(args) + used_types(*ret),
        MachineTypeModel::Union(names) => names,
        MachineTypeModel::Named(n) => seq![n],
    }
}

/// The names of the types that a sequence of types mentions, in order.
pub open spec fn all_used_types(ts: Seq<MachineTypeModel>) -> Seq<Seq<char>>
    decreases ts,
{
    if ts.len() == 0 {
        Seq::empty()
    } else {
        all_used_types(ts.drop_last()) + used_types(ts.last())
    }
}

/// The names of the types that the constructors of a type definition mention, in order.
pub open spec fn directly_used(cs: Seq<(Seq<char>, Option<MachineTypeModel>)>) -> Seq<Seq<char>>
    decreases cs.len(),
{
    if cs.len() == 0 {
        Seq::empty()
    } else {
        directly_used(cs.drop_last()) + match cs.last().1 {
            None => Seq::empty(),
            Some(t) => used_types(t),
        }
    }
}

/// The names of the types used by a type, in order of mention.
fn collect_used_types(t: &MachineType, out: &mut Vec<Name>)
    ensures
        names_view(final(out)@) == names_view(old(out)@) + used_types(t@),
    decreases t,
{
    match t {
        MachineType::AtomicType(_) => {
            proof {
                assert(names_view(out@) =~= names_view(old(out)@) + used_types(t@));
            }
        },
        MachineType::TupleType(TupleType(ts)) => {
            proof {
                lemma_machine_tuple_view(*ts);
            }
            collect_all_used_types(ts, out);
        },
        MachineType::FnType(FnType(args, ret)) | MachineType::WeakFnType(FnType(args, ret)) => {
            proof {
                lemma_machine_fn_view(*args, *ret);
            }
            collect_all_used_types(args, out);
            let ghost mid = out@;
            collect_used_types(ret, out);
            proof {
                assert(names_view(out@) =~= names_view(old(out)@) + used_types(t@));
            }
        },
        MachineType::UnionType(UnionType(names)) => {
            let mut i: usize = 0;
            while i < names.len()
                invariant
                    i <= names.len(),
                    names_view(out@) == names_view(old(out)@) + names_view(names@.take(i as int)),
                decreases names.len() - i,
            {
                let ghost before = out@;
                out.push(names[i].clone());
                proof {
                    assert(names_view(out@) =~= names_view(before).push(names@[i as int]@));
                    assert(names_view(names@.take(i + 1)) =~= names_view(names@.take(i as int)).push(names@[i as int]@));
                    assert(names_view(out@) =~= names_view(old(out)@) + names_view(names@.take(i + 1)));
                }
                i = i + 1;
            }
            proof {
                assert(names@.take(names.len() as int) =~= names@);
            }
        },
        MachineType::NamedType(n) => {
            out.push(n.clone());
            proof {
                assert(names_view(out@) =~= names_view(old(out)@) + used_types(t@));
            }
        },
    }
}

/// The names of the types used by a sequence of types, in order of mention.
fn collect_all_used_types(ts: &Vec<MachineType>, out: &mut Vec<Name>)
    ensures
        names_view(final(out)@) == names_view(old(out)@) + all_used_types(machine_types_view(ts@)),
    decreases ts,
{
    let ghost mts = machine_types_view(ts@);
    let mut i: usize = 0;
    while i < ts.len()
        invariant
            i <= ts.len(),
            mts == machine_types_view(ts@),
            names_view(out@) == names_view(old(out)@) + all_used_types(mts.take(i as int)),
        decreases ts.len() - i,
    {
        proof {
            assert(decreases_to!(ts => ts@[i as int]));
            assert(mts.take(i + 1).drop_last() =~= mts.take(i as int));
        }
        let ghost before = out@;
        collect_used_types(&ts[i], out);
        proof {
            assert(names_view(out@) =~= names_view(old(out)@) + all_used_types(mts.take(i + 1)));
        }
        i = i + 1;
    }
    proof {
        assert(mts.take(ts.len() as int) =~= mts);
    }
}

impl TypeDef {
    /// The names of the types that the constructors of this definition
    /// mention, in order of mention.
    pub fn directly_used_types(&self) -> (res: Vec<Name>)
        ensures
            names_view(res@) == directly_used(self@.constructors),
    {
        let ghost cs = self@.constructors;
        let mut out: Vec<Name> = Vec::new();
        let mut i: usize = 0;
        while i < self.constructors.len()
            invariant
                i <= self.constructors.len(),
                cs == constructors_view(self.constructors@),
                names_view(out@) == directly_used(cs.take(i as int)),
            decreases self.constructors.len() - i,
        {
            proof {
                assert(cs.take(i + 1).drop_last() =~= cs.take(i as int));
            }
            match &self.constructors[i].1 {
                None => {},
                Some(t) => collect_used_types(t, &mut out),
            }
            proof {
                assert(names_view(out@) =~= directly_used(cs.take(i + 1)));
            }
            i = i + 1;
        }
        proof {
            assert(cs.take(self.constructors.len() as int) =~= cs);
        }
        out
    }
}


/// A statement followed by every statement nested in the branches of its
/// conditionals and matches, at any depth, in order.
pub open spec fn nested_statements(s: StatementModel) -> Seq<StatementModel>
    decreases s, 0nat,
{
    match s {
        StatementModel::If(_, a, b) => seq![s] + all_statements(a) + all_statements(b),
        StatementModel::Match(_, _, bs, _) => seq![s] + branches_statements(bs),
        _ => seq![s],
    }
}

/// The statements of a sequence with those nested in them, at any depth.
pub open spec fn all_statements(st: Seq<StatementModel>) -> Seq<StatementModel>
    decreases st, 1nat,
{
    if st.len() == 0 {
        Seq::empty()
    } else {
        all_statements(st.drop_last()) + nested_statements(st.last())
    }
}

/// The statements of the branches of a match with those nested in them.
pub open spec fn branches_statements(bs: Seq<(Option<Seq<char>>, Seq<StatementModel>)>) -> Seq<StatementModel>
    decreases bs, 1nat,
{
    if bs.len() == 0 {
        Seq::empty()
    } else {
        branches_statements(bs.drop_last()) + all_statements(bs.last().1)
    }
}

/// Whether some statement of a sequence has a property.
pub open spec fn some_statement(st: Seq<StatementModel>, p: spec_fn(StatementModel) -> bool) -> bool {
    exists|j: int| 0 <= j < st.len() && #[trigger] p(st[j])
}

pub proof fn lemma_some_statement_add(a: Seq<StatementModel>, b: Seq<StatementModel>, p: spec_fn(StatementModel) -> bool)
    ensures
        some_statement(a + b, p) == (some_statement(a, p) || some_statement(b, p)),
{
    if some_statement(a, p) {
        let j = choose|j: int| 0 <= j < a.len() && #[trigger] p(a[j]);
        assert((a + b)[j] == a[j]);
    }
    if some_statement(b, p) {
        let j = choose|j: int| 0 <= j < b.len() && #[trigger] p(b[j]);
        assert((a + b)[a.len() + j] == b[j]);
    }
    if some_statement(a + b, p) {
        let j = choose|j: int| 0 <= j < (a + b).len() && #[trigger] p((a + b)[j]);
        if j < a.len() {
            assert((a + b)[j] == a[j]);
        } else {
            assert((a + b)[j] == b[j - a.len()]);
        }
    }
}

pub proof fn lemma_some_statement_one(s: StatementModel, p: spec_fn(StatementModel) -> bool)
    ensures
        some_statement(seq![s], p) == p(s),
{
    if p(s) {
        assert(seq![s][0] == s);
    }
}

} // verus!
