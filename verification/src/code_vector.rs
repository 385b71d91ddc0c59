//! Code vectors of lambdas: how many nodes of each kind the code of a lambda
//! holds, where every branch of a conditional or a match holds the same.

use vstd::prelude::*;
use crate::atoms::Id;
use crate::code_size::{
    code_size_constants, lemma_fits_le, lemma_le_add, lemma_le_trans, lemma_op_get_contains, model_add, model_fits,
    model_le, model_zero, op_count, op_get, op_keys, ops_distinct, ops_view, operator_sizes, CodeVector,
    CodeVectorModel,
};
use crate::compiler::{brsize, bsize, esize, stsize};
use crate::intermediate::{
    branches_view, statements_view, values_view, BuiltInFn, IntermediateAssignment, IntermediateBlock,
    IntermediateBuiltIn, IntermediateExpression, IntermediateIf, IntermediateLambda, IntermediateMatch,
    IntermediateMatchBranch, IntermediateStatement, IntermediateValue,
};
use crate::ir_model::{
    expression_values, AssignmentModel, BlockModel, BranchModel, BuiltInModel, ExpressionModel, LambdaModel,
    ValueModel,
};

verus! {

// ---------------------------------------------------------------------------
// The vectors.

/// The vector that counts one node of a kind.
pub open spec fn unit_bool() -> CodeVectorModel { CodeVectorModel { builtin_bool: 1, ..model_zero() } }
pub open spec fn unit_int() -> CodeVectorModel { CodeVectorModel { builtin_int: 1, ..model_zero() } }
pub open spec fn unit_builtin_fn() -> CodeVectorModel { CodeVectorModel { builtin_fn: 1, ..model_zero() } }
pub open spec fn unit_memory_access() -> CodeVectorModel { CodeVectorModel { memory_access: 1, ..model_zero() } }
pub open spec fn unit_tuple_expression() -> CodeVectorModel { CodeVectorModel { tuple_expression: 1, ..model_zero() } }
pub open spec fn unit_element_access() -> CodeVectorModel { CodeVectorModel { element_access: 1, ..model_zero() } }
pub open spec fn unit_value_expression() -> CodeVectorModel { CodeVectorModel { value_expression: 1, ..model_zero() } }
pub open spec fn unit_fn_call() -> CodeVectorModel { CodeVectorModel { fn_call: 1, ..model_zero() } }
pub open spec fn unit_ctor_call() -> CodeVectorModel { CodeVectorModel { ctor_call: 1, ..model_zero() } }
pub open spec fn unit_lambda() -> CodeVectorModel { CodeVectorModel { lambda: 1, ..model_zero() } }
pub open spec fn unit_assignment() -> CodeVectorModel { CodeVectorModel { assignment: 1, ..model_zero() } }
pub open spec fn unit_if_statement() -> CodeVectorModel { CodeVectorModel { if_statement: 1, ..model_zero() } }
pub open spec fn unit_match_statement() -> CodeVectorModel { CodeVectorModel { match_statement: 1, ..model_zero() } }

pub open spec fn unit_operator(id: Seq<char>) -> CodeVectorModel {
    CodeVectorModel { operators: map![id => 1nat], ..model_zero() }
}

/// The vector of a value: one built-in of its kind, or one memory access.
pub open spec fn value_vector(v: ValueModel) -> CodeVectorModel {
    match v {
        ValueModel::BuiltIn(BuiltInModel::Integer(_)) => unit_int(),
        ValueModel::BuiltIn(BuiltInModel::Boolean(_)) => unit_bool(),
        ValueModel::BuiltIn(BuiltInModel::Function(_, _, _)) => unit_builtin_fn(),
        _ => unit_memory_access(),
    }
}

/// The sum of the vectors of values.
pub open spec fn values_vector(vs: Seq<ValueModel>) -> CodeVectorModel
    decreases vs.len(),
{
    if vs.len() == 0 {
        model_zero()
    } else {
        model_add(values_vector(vs.drop_last()), value_vector(vs.last()))
    }
}

/// The vector of an expression: one node of its kind, or its operator, and the
/// vectors of the values it uses. A conditional or a match is counted with its
/// branches by `statement_vector`.
pub open spec fn expression_vector(e: ExpressionModel) -> CodeVectorModel {
    let values = values_vector(expression_values(e));
    match e {
        ExpressionModel::Value(_) => model_add(unit_value_expression(), values),
        ExpressionModel::ElementAccess(_, _) => model_add(unit_element_access(), values),
        ExpressionModel::Tuple(_) => model_add(unit_tuple_expression(), values),
        ExpressionModel::FnCall(ValueModel::BuiltIn(BuiltInModel::Function(id, _, _)), args) =>
            model_add(unit_operator(id), values_vector(args)),
        ExpressionModel::FnCall(_, _) => model_add(unit_fn_call(), values),
        ExpressionModel::CtorCall(_, _, _) => model_add(unit_ctor_call(), values),
        ExpressionModel::Lambda(_) => unit_lambda(),
        _ => model_zero(),
    }
}

/// The vector of an assignment: a conditional counts one branch, its condition
/// and itself; a match counts its first branch, its subject and itself; any
/// other expression counts itself and the assignment.
pub open spec fn statement_vector(a: AssignmentModel) -> CodeVectorModel
    decreases 1 + esize(a.expression), 0nat,
{
    match a.expression {
        ExpressionModel::If(c, t, _) => model_add(model_add(block_vector(t), value_vector(c)), unit_if_statement()),
        ExpressionModel::Match(s, bs) => if bs.len() > 0 {
            proof {
                assert(brsize(bs) >= 1 + bsize(bs[0].block)) by {
                    lemma_brsize_first(bs);
                }
            }
            model_add(model_add(block_vector(bs[0].block), value_vector(s)), unit_match_statement())
        } else {
            model_add(value_vector(s), unit_match_statement())
        },
        e => model_add(expression_vector(e), unit_assignment()),
    }
}

/// The vector of a block: its statements and its returned value.
pub open spec fn block_vector(b: BlockModel) -> CodeVectorModel
    decreases bsize(b), 2nat,
{
    model_add(statements_vector(b.statements), value_vector(b.ret))
}

/// The sum of the vectors of statements.
pub open spec fn statements_vector(st: Seq<AssignmentModel>) -> CodeVectorModel
    decreases stsize(st), 1nat,
{
    if st.len() == 0 {
        model_zero()
    } else {
        model_add(statements_vector(st.drop_last()), statement_vector(st.last()))
    }
}

/// Every operator with a known size, counted zero times.
pub open spec fn known_operators() -> CodeVectorModel {
    CodeVectorModel {
        operators: Map::new(|k: Seq<char>| operator_sizes().map_values(|p: (Seq<char>, nat)| p.0).contains(k), |k: Seq<char>| 0nat),
        ..model_zero()
    }
}

/// The vector of a lambda: its statements and returned value, with every known
/// operator listed.
pub open spec fn lambda_vector(l: LambdaModel) -> CodeVectorModel {
    model_add(model_add(statements_vector(l.block.statements), value_vector(l.block.ret)), known_operators())
}

/// Whether the branches of every conditional and match have equal vectors.
pub open spec fn statement_agrees(a: AssignmentModel) -> bool
    decreases 1 + esize(a.expression), 0nat,
{
    match a.expression {
        ExpressionModel::If(_, t, f) => statements_agree(t.statements) && statements_agree(f.statements)
            && block_vector(t) == block_vector(f),
        ExpressionModel::Match(_, bs) => bs.len() > 0 && branches_agree(bs)
            && forall|i: int| 0 <= i < bs.len() ==> #[trigger] block_vector(bs[i].block) == block_vector(bs[0].block),
        _ => true,
    }
}

pub open spec fn statements_agree(st: Seq<AssignmentModel>) -> bool
    decreases stsize(st), 1nat,
{
    if st.len() == 0 {
        true
    } else {
        statements_agree(st.drop_last()) && statement_agrees(st.last())
    }
}

pub open spec fn branches_agree(bs: Seq<BranchModel>) -> bool
    decreases brsize(bs), 1nat,
{
    if bs.len() == 0 {
        true
    } else {
        proof {
            assert(bsize(bs.last().block) == 1 + stsize(bs.last().block.statements));
        }
        branches_agree(bs.drop_last()) && statements_agree(bs.last().block.statements)
    }
}

/// Whether the vector of every branch of every conditional and match fits in
/// machine words.
pub open spec fn statement_fits(a: AssignmentModel) -> bool
    decreases 1 + esize(a.expression), 0nat,
{
    match a.expression {
        ExpressionModel::If(_, t, f) => statements_fit(t.statements) && statements_fit(f.statements)
            && model_fits(block_vector(t)) && model_fits(block_vector(f)),
        ExpressionModel::Match(_, bs) => branches_fit(bs),
        _ => true,
    }
}

pub open spec fn statements_fit(st: Seq<AssignmentModel>) -> bool
    decreases stsize(st), 1nat,
{
    if st.len() == 0 {
        true
    } else {
        statements_fit(st.drop_last()) && statement_fits(st.last())
    }
}

pub open spec fn branches_fit(bs: Seq<BranchModel>) -> bool
    decreases brsize(bs), 1nat,
{
    if bs.len() == 0 {
        true
    } else {
        proof {
            assert(bsize(bs.last().block) == 1 + stsize(bs.last().block.statements));
        }
        branches_fit(bs.drop_last()) && statements_fit(bs.last().block.statements) && model_fits(block_vector(bs.last().block))
    }
}

// ---------------------------------------------------------------------------
// Facts about the vectors.

pub proof fn lemma_brsize_first(bs: Seq<BranchModel>)
    requires
        bs.len() > 0,
    ensures
        brsize(bs) >= 1 + bsize(bs[0].block),
    decreases bs.len(),
{
    if bs.len() > 1 {
        lemma_brsize_first(bs.drop_last());
    }
}

/// A prefix of statements counts at most what all of them count, and agrees where they do.
proof fn lemma_statements_prefix(st: Seq<AssignmentModel>, i: int)
    requires
        0 <= i <= st.len(),
    ensures
        model_le(statements_vector(st.take(i)), statements_vector(st)),
        statements_agree(st) ==> statements_agree(st.take(i)),
    decreases st.len(),
{
    if i == st.len() {
        assert(st.take(i) =~= st);
    } else {
        lemma_statements_prefix(st.drop_last(), i);
        assert(st.drop_last().take(i) =~= st.take(i));
        lemma_le_add(statements_vector(st.drop_last()), statement_vector(st.last()));
        lemma_le_trans(statements_vector(st.take(i)), statements_vector(st.drop_last()), statements_vector(st));
    }
}

/// A prefix of values counts at most what all of them count.
proof fn lemma_values_prefix(vs: Seq<ValueModel>, i: int)
    requires
        0 <= i <= vs.len(),
    ensures
        model_le(values_vector(vs.take(i)), values_vector(vs)),
    decreases vs.len(),
{
    if i == vs.len() {
        assert(vs.take(i) =~= vs);
    } else {
        lemma_values_prefix(vs.drop_last(), i);
        assert(vs.drop_last().take(i) =~= vs.take(i));
        lemma_le_add(values_vector(vs.drop_last()), value_vector(vs.last()));
        lemma_le_trans(values_vector(vs.take(i)), values_vector(vs.drop_last()), values_vector(vs));
    }
}

/// Branches agree where each of their blocks' statements agree.
proof fn lemma_branches_agree(bs: Seq<BranchModel>, i: int)
    requires
        0 <= i < bs.len(),
        branches_agree(bs),
    ensures
        statements_agree(bs[i].block.statements),
    decreases bs.len(),
{
    if i < bs.len() - 1 {
        lemma_branches_agree(bs.drop_last(), i);
    }
}

proof fn lemma_statements_fit_prefix(st: Seq<AssignmentModel>, i: int)
    requires
        0 <= i < st.len(),
        statements_fit(st),
    ensures
        statement_fits(st[i]),
        statements_fit(st.take(i + 1)),
        statements_fit(st.take(i)),
    decreases st.len(),
{
    if i < st.len() - 1 {
        lemma_statements_fit_prefix(st.drop_last(), i);
        assert(st.drop_last().take(i + 1) =~= st.take(i + 1));
        assert(st.drop_last().take(i) =~= st.take(i));
    } else {
        assert(st.take(i + 1) =~= st);
        assert(st.drop_last() =~= st.take(i));
    }
}

proof fn lemma_branches_fit(bs: Seq<BranchModel>, i: int)
    requires
        0 <= i < bs.len(),
        branches_fit(bs),
    ensures
        statements_fit(bs[i].block.statements),
        model_fits(block_vector(bs[i].block)),
    decreases bs.len(),
{
    if i < bs.len() - 1 {
        lemma_branches_fit(bs.drop_last(), i);
    }
}

/// Branches agree when each of their prefixes does.
proof fn lemma_branches_agree_prefix(bs: Seq<BranchModel>, i: int)
    requires
        0 <= i < bs.len(),
        branches_agree(bs.take(i)),
        statements_agree(bs[i].block.statements),
    ensures
        branches_agree(bs.take(i + 1)),
{
    assert(bs.take(i + 1).drop_last() =~= bs.take(i));
    assert(bs.take(i + 1).last() == bs[i]);
}

/// The values of a list of fewer than a machine word's count count no more than
/// their number of each kind, and no operators.
proof fn lemma_values_fit(vs: Seq<ValueModel>)
    requires
        vs.len() <= usize::MAX,
    ensures
        model_fits(values_vector(vs)),
        values_vector(vs).operators == Map::<Seq<char>, nat>::empty(),
    decreases vs.len(),
{
    let v = values_vector(vs);
    if vs.len() > 0 {
        lemma_values_fit(vs.drop_last());
        assert(v.operators =~= Map::<Seq<char>, nat>::empty());
    } else {
        assert(v.operators =~= Map::<Seq<char>, nat>::empty());
    }
    lemma_values_count(vs);
}

proof fn lemma_values_count(vs: Seq<ValueModel>)
    ensures
        values_vector(vs).builtin_bool + values_vector(vs).builtin_int + values_vector(vs).builtin_fn
            + values_vector(vs).memory_access <= vs.len(),
        values_vector(vs).tuple_expression == 0,
        values_vector(vs).element_access == 0,
        values_vector(vs).value_expression == 0,
        values_vector(vs).fn_call == 0,
        values_vector(vs).ctor_call == 0,
        values_vector(vs).lambda == 0,
        values_vector(vs).assignment == 0,
        values_vector(vs).if_statement == 0,
        values_vector(vs).match_statement == 0,
    decreases vs.len(),
{
    if vs.len() > 0 {
        lemma_values_count(vs.drop_last());
    }
}

/// A list whose counts are all zero gives each of its operators the count zero.
proof fn lemma_op_get_zero(ops: Seq<(Id, usize)>, k: Seq<char>)
    requires
        forall|j: int| 0 <= j < ops.len() ==> (#[trigger] ops[j]).1 == 0,
    ensures
        op_count(ops, k) == 0,
    decreases ops.len(),
{
    if ops.len() > 0 {
        assert(ops[ops.len() - 1].1 == 0);
        assert forall|j: int| 0 <= j < ops.drop_last().len() implies (#[trigger] ops.drop_last()[j]).1 == 0 by {
            assert(ops[j].1 == 0);
        }
        lemma_op_get_zero(ops.drop_last(), k);
    }
}

/// One more statement of a list whose vector fits: its vector fits and adds to
/// that of the statements before it.
proof fn lemma_statement_step(st: Seq<AssignmentModel>, i: int)
    requires
        0 <= i < st.len(),
        statements_agree(st),
        model_fits(statements_vector(st)),
    ensures
        statements_vector(st.take(i + 1)) == model_add(statements_vector(st.take(i)), statement_vector(st[i])),
        model_fits(statements_vector(st.take(i + 1))),
        model_fits(statement_vector(st[i])),
        statement_agrees(st[i]),
{
    assert(st.take(i + 1).drop_last() =~= st.take(i));
    assert(st.take(i + 1).last() == st[i]);
    lemma_statements_prefix(st, i + 1);
    lemma_fits_le(statements_vector(st.take(i + 1)), statements_vector(st));
    lemma_le_add(statements_vector(st.take(i)), statement_vector(st[i]));
    lemma_fits_le(statement_vector(st[i]), statements_vector(st.take(i + 1)));
}

// ---------------------------------------------------------------------------
// Weights: bounds on every count of a vector, read off the code's shape.

/// A bound on every count of the vector of an expression.
pub open spec fn expression_weight(e: ExpressionModel) -> nat {
    match e {
        ExpressionModel::Tuple(vs) => 1 + vs.len(),
        ExpressionModel::FnCall(_, args) => 2 + args.len(),
        ExpressionModel::Value(_) | ExpressionModel::ElementAccess(_, _) | ExpressionModel::CtorCall(_, _, _) => 2,
        _ => 1,
    }
}

/// A bound on every count of the vector of an assignment, and of the vectors
/// of the branches nested in it.
pub open spec fn statement_weight(a: AssignmentModel) -> nat
    decreases 1 + esize(a.expression), 0nat,
{
    match a.expression {
        ExpressionModel::If(_, t, f) => block_weight(t) + block_weight(f) + 2,
        ExpressionModel::Match(_, bs) => branches_weight(bs) + 2,
        e => expression_weight(e) + 1,
    }
}

/// A bound on every count of the vector of a block and of its nested branches.
pub open spec fn block_weight(b: BlockModel) -> nat
    decreases bsize(b), 2nat,
{
    statements_weight(b.statements) + 1
}

pub open spec fn statements_weight(st: Seq<AssignmentModel>) -> nat
    decreases stsize(st), 1nat,
{
    if st.len() == 0 {
        0
    } else {
        statements_weight(st.drop_last()) + statement_weight(st.last())
    }
}

pub open spec fn branches_weight(bs: Seq<BranchModel>) -> nat
    decreases brsize(bs), 1nat,
{
    if bs.len() == 0 {
        0
    } else {
        proof {
            assert(bsize(bs.last().block) == 1 + stsize(bs.last().block.statements));
        }
        branches_weight(bs.drop_last()) + block_weight(bs.last().block)
    }
}

/// Whether every count of a vector is at most a bound.
spec fn model_bounded(a: CodeVectorModel, n: nat) -> bool {
    &&& a.builtin_bool <= n
    &&& a.builtin_int <= n
    &&& a.builtin_fn <= n
    &&& a.memory_access <= n
    &&& a.tuple_expression <= n
    &&& a.element_access <= n
    &&& a.value_expression <= n
    &&& a.fn_call <= n
    &&& a.ctor_call <= n
    &&& a.lambda <= n
    &&& a.assignment <= n
    &&& a.if_statement <= n
    &&& a.match_statement <= n
    &&& forall|k: Seq<char>| a.operators.contains_key(k) ==> #[trigger] a.operators[k] <= n
}

proof fn lemma_bounded_add(a: CodeVectorModel, b: CodeVectorModel, n: nat, m: nat)
    requires
        model_bounded(a, n),
        model_bounded(b, m),
    ensures
        model_bounded(model_add(a, b), n + m),
{
    let s = model_add(a, b);
    assert forall|k: Seq<char>| s.operators.contains_key(k) implies #[trigger] s.operators[k] <= n + m by {
        if a.operators.contains_key(k) {
            assert(a.operators[k] <= n);
        }
        if b.operators.contains_key(k) {
            assert(b.operators[k] <= m);
        }
    }
}

proof fn lemma_bounded_le(a: CodeVectorModel, n: nat, m: nat)
    requires
        model_bounded(a, n),
        n <= m,
    ensures
        model_bounded(a, m),
        m <= usize::MAX ==> model_fits(a),
{
    assert forall|k: Seq<char>| a.operators.contains_key(k) implies #[trigger] a.operators[k] <= m by {
        assert(a.operators[k] <= n);
    }
}

proof fn lemma_values_bounded(vs: Seq<ValueModel>)
    ensures
        model_bounded(values_vector(vs), vs.len()),
    decreases vs.len(),
{
    lemma_values_count(vs);
    if vs.len() > 0 {
        lemma_values_bounded(vs.drop_last());
        let v = vs.last();
        assert(model_bounded(value_vector(v), 1)) by {
            assert(value_vector(v).operators =~= Map::<Seq<char>, nat>::empty());
        }
        lemma_bounded_add(values_vector(vs.drop_last()), value_vector(v), (vs.len() - 1) as nat, 1);
    } else {
        assert(values_vector(vs).operators =~= Map::<Seq<char>, nat>::empty());
    }
}

proof fn lemma_expression_bounded(e: ExpressionModel)
    requires
        !(e is If),
        !(e is Match),
    ensures
        model_bounded(expression_vector(e), expression_weight(e)),
{
    let values = expression_values(e);
    lemma_values_bounded(values);
    match e {
        ExpressionModel::FnCall(ValueModel::BuiltIn(BuiltInModel::Function(id, _, _)), args) => {
            lemma_values_bounded(args);
            lemma_bounded_add(unit_operator(id), values_vector(args), 1, args.len());
        },
        ExpressionModel::Lambda(_) => {
            assert(unit_lambda().operators =~= Map::<Seq<char>, nat>::empty());
        },
        _ => {
            let unit = match e {
                ExpressionModel::Value(_) => unit_value_expression(),
                ExpressionModel::ElementAccess(_, _) => unit_element_access(),
                ExpressionModel::Tuple(_) => unit_tuple_expression(),
                ExpressionModel::FnCall(_, _) => unit_fn_call(),
                _ => unit_ctor_call(),
            };
            assert(unit.operators =~= Map::<Seq<char>, nat>::empty());
            lemma_bounded_add(unit, values_vector(values), 1, values.len());
        },
    }
}

/// The vector of an assignment counts at most its weight, and where the weight
/// fits in a machine word so does every vector of its nested branches.
proof fn lemma_statement_weight(a: AssignmentModel)
    ensures
        model_bounded(statement_vector(a), statement_weight(a)),
        statement_weight(a) <= usize::MAX ==> statement_fits(a),
    decreases 1 + esize(a.expression), 0nat,
{
    let unit_if = unit_if_statement();
    let unit_match = unit_match_statement();
    assert(unit_if.operators =~= Map::<Seq<char>, nat>::empty());
    assert(unit_match.operators =~= Map::<Seq<char>, nat>::empty());
    match a.expression {
        ExpressionModel::If(c, t, f) => {
            lemma_block_weight(t);
            lemma_block_weight(f);
            assert(value_vector(c).operators =~= Map::<Seq<char>, nat>::empty());
            assert(model_bounded(value_vector(c), 1));
            lemma_bounded_add(block_vector(t), value_vector(c), block_weight(t), 1);
            lemma_bounded_add(model_add(block_vector(t), value_vector(c)), unit_if, block_weight(t) + 1, 1);
            lemma_bounded_le(statement_vector(a), block_weight(t) + 2, statement_weight(a));
            if statement_weight(a) <= usize::MAX {
                lemma_bounded_le(block_vector(t), block_weight(t), usize::MAX as nat);
                lemma_bounded_le(block_vector(f), block_weight(f), usize::MAX as nat);
            }
        },
        ExpressionModel::Match(s, bs) => {
            lemma_branches_weight(bs);
            assert(value_vector(s).operators =~= Map::<Seq<char>, nat>::empty());
            assert(model_bounded(value_vector(s), 1));
            if bs.len() > 0 {
                lemma_brsize_first(bs);
                lemma_block_weight(bs[0].block);
                lemma_bounded_add(block_vector(bs[0].block), value_vector(s), block_weight(bs[0].block), 1);
                lemma_bounded_add(model_add(block_vector(bs[0].block), value_vector(s)), unit_match,
                    block_weight(bs[0].block) + 1, 1);
                lemma_bounded_le(statement_vector(a), block_weight(bs[0].block) + 2, statement_weight(a));
            } else {
                lemma_bounded_add(value_vector(s), unit_match, 1, 1);
                lemma_bounded_le(statement_vector(a), 2, statement_weight(a));
            }
        },
        e => {
            lemma_expression_bounded(e);
            let unit = unit_assignment();
            assert(unit.operators =~= Map::<Seq<char>, nat>::empty());
            lemma_bounded_add(expression_vector(e), unit, expression_weight(e), 1);
        },
    }
}

proof fn lemma_block_weight(b: BlockModel)
    ensures
        model_bounded(block_vector(b), block_weight(b)),
        block_weight(b) <= usize::MAX ==> statements_fit(b.statements) && model_fits(block_vector(b)),
    decreases bsize(b), 2nat,
{
    lemma_statements_weight(b.statements);
    assert(value_vector(b.ret).operators =~= Map::<Seq<char>, nat>::empty());
    assert(model_bounded(value_vector(b.ret), 1));
    lemma_bounded_add(statements_vector(b.statements), value_vector(b.ret), statements_weight(b.statements), 1);
    if block_weight(b) <= usize::MAX {
        lemma_bounded_le(block_vector(b), block_weight(b), block_weight(b));
    }
}

proof fn lemma_statements_weight(st: Seq<AssignmentModel>)
    ensures
        model_bounded(statements_vector(st), statements_weight(st)),
        statements_weight(st) <= usize::MAX ==> statements_fit(st),
    decreases stsize(st), 1nat,
{
    if st.len() == 0 {
        assert(statements_vector(st).operators =~= Map::<Seq<char>, nat>::empty());
    } else {
        lemma_statements_weight(st.drop_last());
        lemma_statement_weight(st.last());
        lemma_bounded_add(statements_vector(st.drop_last()), statement_vector(st.last()),
            statements_weight(st.drop_last()), statement_weight(st.last()));
    }
}

proof fn lemma_branches_weight(bs: Seq<BranchModel>)
    ensures
        branches_weight(bs) <= usize::MAX ==> branches_fit(bs),
        bs.len() > 0 ==> block_weight(bs[0].block) <= branches_weight(bs),
    decreases brsize(bs), 1nat,
{
    if bs.len() > 0 {
        assert(bsize(bs.last().block) == 1 + stsize(bs.last().block.statements));
        lemma_branches_weight(bs.drop_last());
        lemma_block_weight(bs.last().block);
        if bs.len() > 1 {
            assert(bs.drop_last()[0] == bs[0]);
        }
    }
}

proof fn lemma_statements_weight_prefix(st: Seq<AssignmentModel>, i: int)
    requires
        0 <= i <= st.len(),
    ensures
        statements_weight(st.take(i)) <= statements_weight(st),
    decreases st.len(),
{
    if i < st.len() {
        lemma_statements_weight_prefix(st.drop_last(), i);
        assert(st.drop_last().take(i) =~= st.take(i));
    } else {
        assert(st.take(i) =~= st);
    }
}

proof fn lemma_branches_weight_prefix(bs: Seq<BranchModel>, i: int)
    requires
        0 <= i <= bs.len(),
    ensures
        branches_weight(bs.take(i)) <= branches_weight(bs),
    decreases bs.len(),
{
    if i < bs.len() {
        lemma_branches_weight_prefix(bs.drop_last(), i);
        assert(bs.drop_last().take(i) =~= bs.take(i));
    } else {
        assert(bs.take(i) =~= bs);
    }
}

/// Where the weight of the body of a lambda fits in a machine word, so do the
/// vector of the lambda and those of its nested branches.
proof fn lemma_lambda_weight(l: LambdaModel)
    requires
        block_weight(l.block) <= usize::MAX,
    ensures
        statements_fit(l.block.statements),
        model_fits(lambda_vector(l)),
{
    lemma_block_weight(l.block);
    let known = known_operators();
    assert forall|k: Seq<char>| known.operators.contains_key(k) implies #[trigger] known.operators[k] <= 0nat by {}
    lemma_bounded_add(block_vector(l.block), known, block_weight(l.block), 0);
    lemma_bounded_le(lambda_vector(l), block_weight(l.block), block_weight(l.block));
}

// ---------------------------------------------------------------------------
// The calculator.

/// Counts the nodes of each kind in the code of a lambda.
pub struct CodeVectorCalculator {}

impl CodeVectorCalculator {
    fn builtin_vector(built_in: &IntermediateBuiltIn) -> (res: CodeVector)
        ensures
            res@ == value_vector(ValueModel::BuiltIn(built_in@)),
            ops_distinct(res.operators@),
    {
        match built_in {
            IntermediateBuiltIn::Integer(_) => CodeVector::builtin_int(),
            IntermediateBuiltIn::Boolean(_) => CodeVector::builtin_bool(),
            IntermediateBuiltIn::BuiltInFn(_) => CodeVector::builtin_fn(),
        }
    }

    /// The vector of a value.
    pub fn value_vector(value: &IntermediateValue) -> (res: CodeVector)
        ensures
            res@ == value_vector(value@),
            ops_distinct(res.operators@),
    {
        match value {
            IntermediateValue::IntermediateBuiltIn(built_in) => Self::builtin_vector(built_in),
            IntermediateValue::IntermediateMemory(_) | IntermediateValue::IntermediateArg(_) => CodeVector::memory_access(),
        }
    }

    /// The sum of the vectors of values.
    pub fn values_vector(values: &Vec<IntermediateValue>) -> (res: CodeVector)
        ensures
            res@ == values_vector(values_view(values@)),
            ops_distinct(res.operators@),
    {
        let ghost vs = values_view(values@);
        let mut total = CodeVector::new();
        let mut i: usize = 0;
        proof {
            assert(vs.take(0) =~= Seq::<ValueModel>::empty());
            assert(vs.len() == values.len());
            lemma_values_fit(vs);
        }
        while i < values.len()
            invariant
                i <= values.len(),
                vs == values_view(values@),
                model_fits(values_vector(vs)),
                total@ == values_vector(vs.take(i as int)),
                ops_distinct(total.operators@),
            decreases values.len() - i,
        {
            proof {
                assert(vs.take(i + 1).drop_last() =~= vs.take(i as int));
                assert(vs.take(i + 1).last() == vs[i as int]);
                lemma_values_prefix(vs, i + 1);
                lemma_fits_le(values_vector(vs.take(i + 1)), values_vector(vs));
            }
            let vector = Self::value_vector(&values[i]);
            total = total.add(vector);
            i = i + 1;
        }
        proof {
            assert(vs.take(values.len() as int) =~= vs);
        }
        total
    }

    /// The vector of an expression.
    pub fn expression_vector(expression: &IntermediateExpression) -> (res: CodeVector)
        requires
            model_fits(expression_vector(expression@)),
        ensures
            res@ == expression_vector(expression@),
            ops_distinct(res.operators@),
    {
        let values = expression.values();
        let values_vector = Self::values_vector(&values);
        proof {
            assert(values_view(values@).len() == values.len());
            lemma_values_fit(values_view(values@));
        }
        match expression {
            IntermediateExpression::IntermediateValue(_) => CodeVector::value_expression().add(values_vector),
            IntermediateExpression::IntermediateElementAccess(_) => CodeVector::element_access().add(values_vector),
            IntermediateExpression::IntermediateTupleExpression(_) => CodeVector::tuple_expression().add(values_vector),
            IntermediateExpression::IntermediateFnCall(call) => match &call.fn_ {
                IntermediateValue::IntermediateBuiltIn(IntermediateBuiltIn::BuiltInFn(BuiltInFn(id, _))) => {
                    proof {
                        assert(values_view(call.args@).len() == call.args.len());
                        lemma_values_fit(values_view(call.args@));
                    }
                    let args_vector = Self::values_vector(&call.args);
                    CodeVector::operator(id.clone()).add(args_vector)
                },
                _ => CodeVector::fn_call().add(values_vector),
            },
            IntermediateExpression::IntermediateCtorCall(_) => CodeVector::ctor_call().add(values_vector),
            IntermediateExpression::IntermediateLambda(_) => CodeVector::lambda(),
            IntermediateExpression::IntermediateIf(_) | IntermediateExpression::IntermediateMatch(_) => CodeVector::new(),
        }
    }

    /// The vector of a statement.
    pub fn statement_vector(statement: &IntermediateStatement) -> (res: CodeVector)
        requires
            statement_agrees(statement@),
            model_fits(statement_vector(statement@)),
        ensures
            res@ == statement_vector(statement@),
            ops_distinct(res.operators@),
        decreases 1 + esize(statement@.expression), 0nat,
    {
        match statement {
            IntermediateStatement::IntermediateAssignment(assignment) => match &assignment.expression {
                IntermediateExpression::IntermediateIf(if_statement) => Self::if_statement_vector(if_statement),
                IntermediateExpression::IntermediateMatch(match_statement) => {
                    proof {
                        crate::intermediate::lemma_match_view(*match_statement);
                    }
                    Self::match_statement_vector(match_statement)
                },
                _ => Self::assignment_vector(assignment),
            },
        }
    }

    /// The vector of an assignment of an expression that is neither a
    /// conditional nor a match.
    fn assignment_vector(assignment: &IntermediateAssignment) -> (res: CodeVector)
        requires
            model_fits(model_add(expression_vector(assignment@.expression), unit_assignment())),
        ensures
            res@ == model_add(expression_vector(assignment@.expression), unit_assignment()),
            ops_distinct(res.operators@),
    {
        proof {
            lemma_le_add(expression_vector(assignment@.expression), unit_assignment());
            lemma_fits_le(expression_vector(assignment@.expression), model_add(expression_vector(assignment@.expression), unit_assignment()));
        }
        Self::expression_vector(&assignment.expression).add(CodeVector::assignment())
    }

    /// The vector of a conditional: one of its branches, which count the same,
    /// its condition and itself.
    pub fn if_statement_vector(if_statement: &IntermediateIf) -> (res: CodeVector)
        requires
            statements_agree(if_statement.branches.0@.statements),
            statements_agree(if_statement.branches.1@.statements),
            block_vector(if_statement.branches.0@) == block_vector(if_statement.branches.1@),
            model_fits(model_add(model_add(block_vector(if_statement.branches.0@), value_vector(if_statement.condition@)),
                unit_if_statement())),
        ensures
            res@ == model_add(model_add(block_vector(if_statement.branches.0@), value_vector(if_statement.condition@)),
                unit_if_statement()),
            ops_distinct(res.operators@),
        decreases 1 + bsize(if_statement.branches.0@) + bsize(if_statement.branches.1@), 0nat,
    {
        let ghost t = block_vector(if_statement.branches.0@);
        let ghost c = value_vector(if_statement.condition@);
        proof {
            lemma_le_add(model_add(t, c), unit_if_statement());
            lemma_le_add(t, c);
            lemma_le_trans(t, model_add(t, c), model_add(model_add(t, c), unit_if_statement()));
            lemma_fits_le(model_add(t, c), model_add(model_add(t, c), unit_if_statement()));
            lemma_fits_le(t, model_add(model_add(t, c), unit_if_statement()));
        }
        let condition_vector = Self::value_vector(&if_statement.condition);
        let left = Self::block_vector(&if_statement.branches.0);
        let right = Self::block_vector(&if_statement.branches.1);
        proof {
            assert(left@ == right@);
        }
        left.add(condition_vector).add(CodeVector::if_statement())
    }

    /// The vector of a match: its first branch, all branches counting the
    /// same, its subject and itself.
    #[verifier::rlimit(30)]
    pub fn match_statement_vector(match_statement: &IntermediateMatch) -> (res: CodeVector)
        requires
            match_statement.branches@.len() > 0,
            branches_agree(branches_view(match_statement.branches@)),
            forall|i: int| 0 <= i < match_statement.branches@.len() ==> #[trigger] block_vector(
                branches_view(match_statement.branches@)[i].block) == block_vector(branches_view(match_statement.branches@)[0].block),
            model_fits(model_add(model_add(block_vector(branches_view(match_statement.branches@)[0].block),
                value_vector(match_statement.subject@)), unit_match_statement())),
        ensures
            res@ == model_add(model_add(block_vector(branches_view(match_statement.branches@)[0].block),
                value_vector(match_statement.subject@)), unit_match_statement()),
            ops_distinct(res.operators@),
        decreases 1 + brsize(branches_view(match_statement.branches@)), 0nat,
    {
        let ghost bs = branches_view(match_statement.branches@);
        let ghost first = block_vector(bs[0].block);
        let ghost c = value_vector(match_statement.subject@);
        let ghost total = model_add(model_add(first, c), unit_match_statement());
        proof {
            lemma_le_add(model_add(first, c), unit_match_statement());
            lemma_le_add(first, c);
            lemma_le_trans(first, model_add(first, c), total);
            lemma_fits_le(model_add(first, c), total);
            lemma_fits_le(first, total);
        }
        let subject_vector = Self::value_vector(&match_statement.subject);
        let mut vectors: Vec<CodeVector> = Vec::new();
        let mut i: usize = 0;
        while i < match_statement.branches.len()
            invariant
                i <= match_statement.branches.len(),
                bs == branches_view(match_statement.branches@),
                branches_agree(bs),
                model_fits(first),
                first == block_vector(bs[0].block),
                forall|j: int| 0 <= j < bs.len() ==> #[trigger] block_vector(bs[j].block) == first,
                vectors@.len() == i,
                forall|j: int| 0 <= j < i ==> (#[trigger] vectors@[j])@ == first && ops_distinct(vectors@[j].operators@),
            decreases match_statement.branches.len() - i,
        {
            proof {
                crate::compiler::lemma_brsize_prefix(bs, i + 1);
                lemma_branches_agree(bs, i as int);
                assert(block_vector(bs[i as int].block) == first);
            }
            let vector = Self::match_branch_vector(&match_statement.branches[i]);
            vectors.push(vector);
            i = i + 1;
        }
        let branch_vector = vectors[0].copy();
        branch_vector.add(subject_vector).add(CodeVector::match_statement())
    }

    /// The vector of a branch of a match.
    fn match_branch_vector(match_branch: &IntermediateMatchBranch) -> (res: CodeVector)
        requires
            statements_agree(match_branch@.block.statements),
            model_fits(block_vector(match_branch@.block)),
        ensures
            res@ == block_vector(match_branch@.block),
            ops_distinct(res.operators@),
        decreases bsize(match_branch@.block), 3nat,
    {
        Self::block_vector(&match_branch.block)
    }

    /// The vector of a block.
    fn block_vector(block: &IntermediateBlock) -> (res: CodeVector)
        requires
            statements_agree(block@.statements),
            model_fits(block_vector(block@)),
        ensures
            res@ == block_vector(block@),
            ops_distinct(res.operators@),
        decreases bsize(block@), 2nat,
    {
        proof {
            crate::intermediate::lemma_block_view(*block);
            lemma_le_add(statements_vector(block@.statements), value_vector(block@.ret));
            lemma_fits_le(statements_vector(block@.statements), block_vector(block@));
        }
        let statements = Self::statements_vector(&block.statements);
        let ret = Self::value_vector(&block.ret);
        statements.add(ret)
    }

    /// The sum of the vectors of statements.
    pub fn statements_vector(statements: &Vec<IntermediateStatement>) -> (res: CodeVector)
        requires
            statements_agree(statements_view(statements@)),
            model_fits(statements_vector(statements_view(statements@))),
        ensures
            res@ == statements_vector(statements_view(statements@)),
            ops_distinct(res.operators@),
        decreases stsize(statements_view(statements@)), 1nat,
    {
        let ghost st = statements_view(statements@);
        let mut total = CodeVector::new();
        let mut i: usize = 0;
        proof {
            assert(st.take(0) =~= Seq::<AssignmentModel>::empty());
        }
        while i < statements.len()
            invariant
                i <= statements.len(),
                st == statements_view(statements@),
                statements_agree(st),
                model_fits(statements_vector(st)),
                total@ == statements_vector(st.take(i as int)),
                ops_distinct(total.operators@),
            decreases statements.len() - i,
        {
            proof {
                lemma_statement_step(st, i as int);
                crate::compiler::lemma_stsize_prefix(st, i + 1);
            }
            let vector = Self::statement_vector(&statements[i]);
            total = total.add(vector);
            i = i + 1;
        }
        proof {
            assert(st.take(statements.len() as int) =~= st);
        }
        total
    }

    /// Whether the branches of every conditional and match in a statement
    /// count the same.
    pub fn statement_agrees(statement: &IntermediateStatement) -> (res: bool)
        requires
            statement_fits(statement@),
        ensures
            res == statement_agrees(statement@),
        decreases 1 + esize(statement@.expression), 1nat,
    {
        match statement {
            IntermediateStatement::IntermediateAssignment(assignment) => match &assignment.expression {
                IntermediateExpression::IntermediateIf(if_statement) => {
                    proof {
                        crate::intermediate::lemma_block_view(if_statement.branches.0);
                        crate::intermediate::lemma_block_view(if_statement.branches.1);
                    }
                    if !Self::statements_agree(&if_statement.branches.0.statements) {
                        return false;
                    }
                    if !Self::statements_agree(&if_statement.branches.1.statements) {
                        return false;
                    }
                    let left = Self::block_vector(&if_statement.branches.0);
                    let right = Self::block_vector(&if_statement.branches.1);
                    left.same(&right)
                },
                IntermediateExpression::IntermediateMatch(match_statement) => {
                    proof {
                        crate::intermediate::lemma_match_view(*match_statement);
                    }
                    Self::branches_agree(&match_statement.branches)
                },
                _ => true,
            },
        }
    }

    /// Whether the branches of a match, and those nested in them, count the same.
    fn branches_agree(branches: &Vec<IntermediateMatchBranch>) -> (res: bool)
        requires
            branches_fit(branches_view(branches@)),
        ensures
            res == (branches@.len() > 0 && branches_agree(branches_view(branches@)) && forall|i: int|
                0 <= i < branches@.len() ==> #[trigger] block_vector(branches_view(branches@)[i].block)
                    == block_vector(branches_view(branches@)[0].block)),
        decreases brsize(branches_view(branches@)), 2nat,
    {
        let ghost bs = branches_view(branches@);
        if branches.len() == 0 {
            return false;
        }
        let mut i: usize = 0;
        proof {
            assert(bs.take(0) =~= Seq::<BranchModel>::empty());
        }
        while i < branches.len()
            invariant
                i <= branches.len(),
                bs == branches_view(branches@),
                branches_fit(bs),
                branches_agree(bs.take(i as int)),
            decreases branches.len() - i,
        {
            proof {
                lemma_branches_fit(bs, i as int);
                crate::compiler::lemma_brsize_prefix(bs, i + 1);
                crate::intermediate::lemma_block_view(branches@[i as int].block);
            }
            if !Self::statements_agree(&branches[i].block.statements) {
                proof {
                    if branches_agree(bs) {
                        lemma_branches_agree(bs, i as int);
                    }
                }
                return false;
            }
            proof {
                lemma_branches_agree_prefix(bs, i as int);
            }
            i = i + 1;
        }
        proof {
            assert(bs.take(branches.len() as int) =~= bs);
            lemma_branches_fit(bs, 0);
            crate::compiler::lemma_brsize_prefix(bs, 1);
            lemma_branches_agree(bs, 0);
        }
        let first = Self::block_vector(&branches[0].block);
        let mut j: usize = 1;
        while j < branches.len()
            invariant
                1 <= j <= branches.len(),
                bs == branches_view(branches@),
                branches_fit(bs),
                branches_agree(bs),
                first@ == block_vector(bs[0].block),
                forall|k: int| 0 <= k < j ==> #[trigger] block_vector(bs[k].block) == block_vector(bs[0].block),
            decreases branches.len() - j,
        {
            proof {
                lemma_branches_fit(bs, j as int);
                lemma_branches_agree(bs, j as int);
                crate::compiler::lemma_brsize_prefix(bs, j + 1);
            }
            let vector = Self::block_vector(&branches[j].block);
            if !vector.same(&first) {
                return false;
            }
            j = j + 1;
        }
        true
    }

    /// Whether the branches of every conditional and match in statements
    /// count the same.
    pub fn statements_agree(statements: &Vec<IntermediateStatement>) -> (res: bool)
        requires
            statements_fit(statements_view(statements@)),
        ensures
            res == statements_agree(statements_view(statements@)),
        decreases stsize(statements_view(statements@)), 2nat,
    {
        let ghost st = statements_view(statements@);
        let mut i: usize = 0;
        proof {
            assert(st.take(0) =~= Seq::<AssignmentModel>::empty());
        }
        while i < statements.len()
            invariant
                i <= statements.len(),
                st == statements_view(statements@),
                statements_fit(st),
                statements_agree(st.take(i as int)),
            decreases statements.len() - i,
        {
            proof {
                lemma_statements_fit_prefix(st, i as int);
                crate::compiler::lemma_stsize_prefix(st, i + 1);
                assert(st.take(i + 1).drop_last() =~= st.take(i as int));
                assert(st.take(i + 1).last() == st[i as int]);
            }
            if !Self::statement_agrees(&statements[i]) {
                proof {
                    if statements_agree(st) {
                        lemma_statements_prefix(st, i + 1);
                    }
                }
                return false;
            }
            i = i + 1;
        }
        proof {
            assert(st.take(statements.len() as int) =~= st);
        }
        true
    }

    /// The weight of an expression, or `None` where it exceeds a machine word.
    fn expression_weight(expression: &IntermediateExpression) -> (res: Option<usize>)
        ensures
            match res {
                Some(w) => w == expression_weight(expression@),
                None => expression_weight(expression@) > usize::MAX,
            },
    {
        match expression {
            IntermediateExpression::IntermediateTupleExpression(tuple) => {
                proof {
                    assert(values_view(tuple.0@).len() == tuple.0.len());
                }
                tuple.0.len().checked_add(1)
            },
            IntermediateExpression::IntermediateFnCall(call) => {
                proof {
                    assert(values_view(call.args@).len() == call.args.len());
                }
                call.args.len().checked_add(2)
            },
            IntermediateExpression::IntermediateValue(_) | IntermediateExpression::IntermediateElementAccess(_)
            | IntermediateExpression::IntermediateCtorCall(_) => Some(2),
            _ => Some(1),
        }
    }

    /// The weight of a statement, or `None` where it exceeds a machine word.
    fn statement_weight(statement: &IntermediateStatement) -> (res: Option<usize>)
        ensures
            match res {
                Some(w) => w == statement_weight(statement@),
                None => statement_weight(statement@) > usize::MAX,
            },
        decreases 1 + esize(statement@.expression), 0nat,
    {
        match statement {
            IntermediateStatement::IntermediateAssignment(assignment) => match &assignment.expression {
                IntermediateExpression::IntermediateIf(if_statement) => {
                    let left = match Self::block_weight(&if_statement.branches.0) {
                        Some(w) => w,
                        None => return None,
                    };
                    let right = match Self::block_weight(&if_statement.branches.1) {
                        Some(w) => w,
                        None => return None,
                    };
                    match left.checked_add(right) {
                        Some(w) => w.checked_add(2),
                        None => None,
                    }
                },
                IntermediateExpression::IntermediateMatch(match_statement) => {
                    proof {
                        crate::intermediate::lemma_match_view(*match_statement);
                    }
                    match Self::branches_weight(&match_statement.branches) {
                        Some(w) => w.checked_add(2),
                        None => None,
                    }
                },
                other => match Self::expression_weight(other) {
                    Some(w) => w.checked_add(1),
                    None => None,
                },
            },
        }
    }

    /// The weight of a block, or `None` where it exceeds a machine word.
    fn block_weight(block: &IntermediateBlock) -> (res: Option<usize>)
        ensures
            match res {
                Some(w) => w == block_weight(block@),
                None => block_weight(block@) > usize::MAX,
            },
        decreases bsize(block@), 2nat,
    {
        proof {
            crate::intermediate::lemma_block_view(*block);
        }
        match Self::statements_weight(&block.statements) {
            Some(w) => w.checked_add(1),
            None => None,
        }
    }

    /// The weight of statements, or `None` where it exceeds a machine word.
    fn statements_weight(statements: &Vec<IntermediateStatement>) -> (res: Option<usize>)
        ensures
            match res {
                Some(w) => w == statements_weight(statements_view(statements@)),
                None => statements_weight(statements_view(statements@)) > usize::MAX,
            },
        decreases stsize(statements_view(statements@)), 1nat,
    {
        let ghost st = statements_view(statements@);
        let mut total: usize = 0;
        let mut i: usize = 0;
        proof {
            assert(st.take(0) =~= Seq::<AssignmentModel>::empty());
        }
        while i < statements.len()
            invariant
                i <= statements.len(),
                st == statements_view(statements@),
                total == statements_weight(st.take(i as int)),
            decreases statements.len() - i,
        {
            proof {
                crate::compiler::lemma_stsize_prefix(st, i + 1);
                assert(st.take(i + 1).drop_last() =~= st.take(i as int));
                assert(st.take(i + 1).last() == st[i as int]);
                lemma_statements_weight_prefix(st, i + 1);
            }
            let w = match Self::statement_weight(&statements[i]) {
                Some(w) => w,
                None => return None,
            };
            total = match total.checked_add(w) {
                Some(t) => t,
                None => return None,
            };
            i = i + 1;
        }
        proof {
            assert(st.take(statements.len() as int) =~= st);
        }
        Some(total)
    }

    /// The weight of the branches of a match, or `None` where it exceeds a
    /// machine word.
    fn branches_weight(branches: &Vec<IntermediateMatchBranch>) -> (res: Option<usize>)
        ensures
            match res {
                Some(w) => w == branches_weight(branches_view(branches@)),
                None => branches_weight(branches_view(branches@)) > usize::MAX,
            },
        decreases brsize(branches_view(branches@)), 1nat,
    {
        let ghost bs = branches_view(branches@);
        let mut total: usize = 0;
        let mut i: usize = 0;
        proof {
            assert(bs.take(0) =~= Seq::<BranchModel>::empty());
        }
        while i < branches.len()
            invariant
                i <= branches.len(),
                bs == branches_view(branches@),
                total == branches_weight(bs.take(i as int)),
            decreases branches.len() - i,
        {
            proof {
                crate::compiler::lemma_brsize_prefix(bs, i + 1);
                assert(bs.take(i + 1).drop_last() =~= bs.take(i as int));
                assert(bs.take(i + 1).last() == bs[i as int]);
                lemma_branches_weight_prefix(bs, i + 1);
            }
            let w = match Self::block_weight(&branches[i].block) {
                Some(w) => w,
                None => return None,
            };
            total = match total.checked_add(w) {
                Some(t) => t,
                None => return None,
            };
            i = i + 1;
        }
        proof {
            assert(bs.take(branches.len() as int) =~= bs);
        }
        Some(total)
    }

    /// The vector of a lambda, or `None` where the branches of a conditional
    /// or a match in it count differently, or where the weight of its body
    /// exceeds a machine word (its counts might not fit in one).
    pub fn checked_lambda_vector(lambda: &IntermediateLambda) -> (res: Option<CodeVector>)
        ensures
            res is Some == (block_weight(lambda@.block) <= usize::MAX && statements_agree(lambda@.block.statements)),
            res is Some ==> res->0@ == lambda_vector(lambda@),
    {
        proof {
            crate::intermediate::lemma_block_view(lambda.block);
        }
        if Self::block_weight(&lambda.block).is_none() {
            return None;
        }
        proof {
            lemma_lambda_weight(lambda@);
        }
        if Self::statements_agree(&lambda.block.statements) {
            Some(Self::lambda_vector(lambda))
        } else {
            None
        }
    }

    /// The vector of a lambda, listing every operator of known size.
    #[verifier::rlimit(30)]
    pub fn lambda_vector(lambda: &IntermediateLambda) -> (res: CodeVector)
        requires
            statements_agree(lambda@.block.statements),
            model_fits(lambda_vector(lambda@)),
        ensures
            res@ == lambda_vector(lambda@),
            ops_distinct(res.operators@),
    {
        let ghost body = model_add(statements_vector(lambda@.block.statements), value_vector(lambda@.block.ret));
        proof {
            crate::intermediate::lemma_block_view(lambda.block);
            lemma_le_add(body, known_operators());
            lemma_le_add(statements_vector(lambda@.block.statements), value_vector(lambda@.block.ret));
            lemma_fits_le(body, lambda_vector(lambda@));
            lemma_fits_le(statements_vector(lambda@.block.statements), body);
        }
        let constants = code_size_constants();
        let mut operators: Vec<(Id, usize)> = Vec::new();
        let mut i: usize = 0;
        while i < constants.operators.len()
            invariant
                i <= constants.operators.len(),
                op_keys(operators@) == op_keys(constants.operators@).take(i as int),
                forall|j: int| 0 <= j < i ==> (#[trigger] operators@[j]).1 == 0,
            decreases constants.operators.len() - i,
        {
            let ghost before = operators@;
            operators.push((constants.operators[i].0.clone(), 0));
            proof {
                assert(op_keys(operators@) =~= op_keys(before).push(constants.operators@[i as int].0@));
                assert(op_keys(constants.operators@).take(i + 1) =~= op_keys(constants.operators@).take(i as int).push(
                    constants.operators@[i as int].0@,
                ));
            }
            i = i + 1;
        }
        let default = CodeVector {
            builtin_bool: 0,
            builtin_int: 0,
            builtin_fn: 0,
            memory_access: 0,
            tuple_expression: 0,
            element_access: 0,
            value_expression: 0,
            fn_call: 0,
            ctor_call: 0,
            lambda: 0,
            assignment: 0,
            if_statement: 0,
            match_statement: 0,
            operators,
        };
        proof {
            assert(op_keys(constants.operators@).take(constants.operators.len() as int) =~= op_keys(constants.operators@));
            assert(op_keys(constants.operators@) =~= operator_sizes().map_values(|p: (Seq<char>, nat)| p.0));
            assert forall|k: Seq<char>| #[trigger] ops_view(default.operators@).contains_key(k)
                == known_operators().operators.contains_key(k) by {
                lemma_op_get_contains(default.operators@, k);
            }
            assert forall|k: Seq<char>| ops_view(default.operators@).contains_key(k) implies
                #[trigger] ops_view(default.operators@)[k] == known_operators().operators[k] by {
                lemma_op_get_zero(default.operators@, k);
            }
            assert(ops_view(default.operators@) =~= known_operators().operators);
            assert(default@ == known_operators());
        }
        let statements = Self::statements_vector(&lambda.block.statements);
        let ret = Self::value_vector(&lambda.block.ret);
        statements.add(ret).add(default)
    }
}

} // verus!
