//! Estimates of the size of the code generated for a lambda, as a range from
//! the smallest to the largest size over the branches that a run may take.

use vstd::prelude::*;
use gcollections::ops::{Bounded, Singleton};
use interval::ops::{Hull, Range};
use interval::Interval;
use crate::code_size::{code_size_constants, op_get, operator_sizes, CodeVector};
use crate::compiler::{brsize, bsize, esize, stsize};
use crate::intermediate::{
    branches_view, lemma_block_view, lemma_match_view, statements_view, values_view, IntermediateBlock,
    IntermediateBuiltIn, IntermediateExpression, IntermediateLambda, IntermediateMatchBranch,
    IntermediateStatement, IntermediateValue, BuiltInFn, IntermediateIf, IntermediateMatch, IntermediateAssignment,
};
use crate::ir_model::{
    expression_values, AssignmentModel, BlockModel, BranchModel, BuiltInModel, ExpressionModel, LambdaModel,
    ValueModel,
};

verus! {

// ---------------------------------------------------------------------------
// Ranges of sizes, computed by the interval crate.

/// `Interval::singleton` of the interval crate: the interval that holds one
/// value. Its constructor asserts that the value is below the largest `usize`.
#[verifier::external_body]
fn interval_singleton(x: usize) -> (res: (usize, usize))
    requires
        x < usize::MAX,
    ensures
        res == (x, x),
{
    let i: Interval<usize> = Interval::singleton(x);
    (i.lower(), i.upper())
}

/// `Interval::hull` of the interval crate: the smallest interval that holds
/// two non-empty intervals, from the smaller lower bound to the larger upper bound.
#[verifier::external_body]
fn interval_hull(a: (usize, usize), b: (usize, usize)) -> (res: (usize, usize))
    requires
        a.0 <= a.1 < usize::MAX,
        b.0 <= b.1 < usize::MAX,
    ensures
        res == (if a.0 <= b.0 { a.0 } else { b.0 }, if a.1 >= b.1 { a.1 } else { b.1 }),
{
    let h = Interval::new(a.0, a.1).hull(&Interval::new(b.0, b.1));
    (h.lower(), h.upper())
}

/// The sum of two non-empty intervals of the interval crate (its `Add`): the
/// lower bounds add, and so do the upper bounds.
#[verifier::external_body]
fn interval_add(a: (usize, usize), b: (usize, usize)) -> (res: (usize, usize))
    requires
        a.0 <= a.1,
        b.0 <= b.1,
        a.1 + b.1 < usize::MAX,
    ensures
        res == ((a.0 + b.0) as usize, (a.1 + b.1) as usize),
{
    let s = Interval::new(a.0, a.1) + Interval::new(b.0, b.1);
    (s.lower(), s.upper())
}

/// A non-empty interval of the interval crate plus a constant (its `Add` with a
/// bound): both bounds move by the constant.
#[verifier::external_body]
fn interval_add_bound(a: (usize, usize), x: usize) -> (res: (usize, usize))
    requires
        a.0 <= a.1,
        a.1 + x < usize::MAX,
    ensures
        res == ((a.0 + x) as usize, (a.1 + x) as usize),
{
    let s = Interval::new(a.0, a.1) + x;
    (s.lower(), s.upper())
}

/// The range of sizes as a pair of bounds.
pub open spec fn range_hull(a: (nat, nat), b: (nat, nat)) -> (nat, nat) {
    (if a.0 <= b.0 { a.0 } else { b.0 }, if a.1 >= b.1 { a.1 } else { b.1 })
}

pub open spec fn range_add(a: (nat, nat), b: (nat, nat)) -> (nat, nat) {
    (a.0 + b.0, a.1 + b.1)
}

pub open spec fn range_shift(a: (nat, nat), x: nat) -> (nat, nat) {
    (a.0 + x, a.1 + x)
}

// ---------------------------------------------------------------------------
// The sizes.

/// The size given to a name by a table, by its last entry for that name.
pub open spec fn table_size(table: Seq<(Seq<char>, nat)>, name: Seq<char>) -> Option<nat>
    decreases table.len(),
{
    if table.len() == 0 {
        None
    } else if table.last().0 == name {
        Some(table.last().1)
    } else {
        table_size(table.drop_last(), name)
    }
}

/// The size of the code of a built-in operator, if it is known.
pub open spec fn operator_size(name: Seq<char>) -> Option<nat> {
    table_size(operator_sizes(), name)
}

/// The size of the code of a value: every kind of value costs nothing.
pub open spec fn value_size(v: ValueModel) -> nat {
    0
}

pub open spec fn values_size(vs: Seq<ValueModel>) -> nat
    decreases vs.len(),
{
    if vs.len() == 0 {
        0
    } else {
        values_size(vs.drop_last()) + value_size(vs.last())
    }
}

/// The size of the code of an expression: a cost for its kind, or for its
/// operator, plus the sizes of the values it uses.
pub open spec fn expression_size(e: ExpressionModel) -> nat {
    let values = values_size(expression_values(e));
    match e {
        ExpressionModel::Value(_) => values,
        ExpressionModel::ElementAccess(_, _) => values,
        ExpressionModel::Tuple(_) => 7 + values,
        ExpressionModel::FnCall(ValueModel::BuiltIn(BuiltInModel::Function(id, _, _)), args) =>
            operator_size(id)->0 + values_size(args),
        ExpressionModel::FnCall(_, _) => 98 + values,
        ExpressionModel::CtorCall(_, _, _) => 14 + values,
        _ => 0,
    }
}

/// The range of sizes of an assignment: a conditional or a match ranges over
/// its branches; any other expression has one size.
pub open spec fn statement_size(a: AssignmentModel) -> (nat, nat)
    decreases 1 + esize(a.expression), 0nat,
{
    match a.expression {
        ExpressionModel::If(c, t, f) => range_shift(range_hull(branch_block_size(t), branch_block_size(f)), value_size(c) + 8),
        ExpressionModel::Match(s, bs) => range_shift(branches_size(bs), value_size(s) + 8),
        e => (expression_size(e), expression_size(e)),
    }
}

/// The range of sizes of a branch: its statements and the assignment of its result.
pub open spec fn branch_block_size(b: BlockModel) -> (nat, nat)
    decreases bsize(b), 2nat,
{
    range_shift(statements_size(b.statements), value_size(b.ret))
}

/// The hull of the ranges of the branches of a match.
pub open spec fn branches_size(bs: Seq<BranchModel>) -> (nat, nat)
    decreases brsize(bs), 1nat,
{
    if bs.len() <= 1 {
        if bs.len() == 1 { branch_block_size(bs[0].block) } else { (0, 0) }
    } else {
        range_hull(branches_size(bs.drop_last()), branch_block_size(bs.last().block))
    }
}

/// The range of sizes of statements: the ranges add.
pub open spec fn statements_size(st: Seq<AssignmentModel>) -> (nat, nat)
    decreases stsize(st), 1nat,
{
    if st.len() == 0 {
        (0, 0)
    } else {
        range_add(statements_size(st.drop_last()), statement_size(st.last()))
    }
}

/// The range of sizes of the code of a lambda: its statements and its returned value.
pub open spec fn lambda_size(l: LambdaModel) -> (nat, nat) {
    range_shift(statements_size(l.block.statements), value_size(l.block.ret))
}

/// Whether the size of an expression's code is known: every operator it calls
/// has a known size, and each match has a branch.
pub open spec fn size_known(e: ExpressionModel) -> bool
    decreases esize(e), 1nat,
{
    match e {
        ExpressionModel::FnCall(ValueModel::BuiltIn(BuiltInModel::Function(id, _, _)), _) => operator_size(id) is Some,
        ExpressionModel::If(_, t, f) => statements_size_known(t.statements) && statements_size_known(f.statements),
        ExpressionModel::Match(_, bs) => bs.len() > 0 && branches_size_known(bs),
        _ => true,
    }
}

pub open spec fn statements_size_known(st: Seq<AssignmentModel>) -> bool
    decreases stsize(st), 2nat,
{
    if st.len() == 0 {
        true
    } else {
        statements_size_known(st.drop_last()) && size_known(st.last().expression)
    }
}

pub open spec fn branches_size_known(bs: Seq<BranchModel>) -> bool
    decreases brsize(bs), 2nat,
{
    if bs.len() == 0 {
        true
    } else {
        proof {
            assert(bsize(bs.last().block) == 1 + stsize(bs.last().block.statements));
        }
        branches_size_known(bs.drop_last()) && statements_size_known(bs.last().block.statements)
    }
}


// ---------------------------------------------------------------------------
// Facts about the sizes.

/// A range as a pair of natural numbers.
pub open spec fn as_range(r: (usize, usize)) -> (nat, nat) {
    (r.0 as nat, r.1 as nat)
}

/// The values of any sequence cost nothing.
pub proof fn lemma_values_size_zero(vs: Seq<ValueModel>)
    ensures
        values_size(vs) == 0,
    decreases vs.len(),
{
    if vs.len() > 0 {
        lemma_values_size_zero(vs.drop_last());
    }
}

/// A table of operators that holds, entry by entry, the names and sizes of a
/// table of sizes gives each name the same size.
proof fn lemma_op_size(ops: Seq<(crate::atoms::Id, usize)>, table: Seq<(Seq<char>, nat)>, k: Seq<char>)
    requires
        ops.len() == table.len(),
        forall|i: int| 0 <= i < table.len() ==> (#[trigger] ops[i]).0@ == table[i].0 && ops[i].1 == table[i].1,
    ensures
        (op_get(ops, k) is Some) == (table_size(table, k) is Some),
        op_get(ops, k) is Some ==> op_get(ops, k)->0 == table_size(table, k)->0,
    decreases ops.len(),
{
    if ops.len() > 0 {
        let n = ops.len() - 1;
        assert(ops[n].0@ == table[n].0);
        assert forall|i: int| 0 <= i < table.drop_last().len() implies (#[trigger] ops.drop_last()[i]).0@
            == table.drop_last()[i].0 && ops.drop_last()[i].1 == table.drop_last()[i].1 by {
            assert(ops[i].0@ == table[i].0);
        }
        lemma_op_size(ops.drop_last(), table.drop_last(), k);
    }
}

/// Every range runs from its smaller bound to its larger one.
pub proof fn lemma_statement_ordered(a: AssignmentModel)
    ensures
        statement_size(a).0 <= statement_size(a).1,
    decreases 1 + esize(a.expression), 0nat,
{
    match a.expression {
        ExpressionModel::If(_, t, f) => {
            lemma_block_ordered(t);
            lemma_block_ordered(f);
        },
        ExpressionModel::Match(_, bs) => {
            lemma_branches_ordered(bs);
        },
        _ => {},
    }
}

pub proof fn lemma_block_ordered(b: BlockModel)
    ensures
        branch_block_size(b).0 <= branch_block_size(b).1,
    decreases bsize(b), 2nat,
{
    lemma_statements_ordered(b.statements);
}

pub proof fn lemma_branches_ordered(bs: Seq<BranchModel>)
    ensures
        branches_size(bs).0 <= branches_size(bs).1,
    decreases brsize(bs), 1nat,
{
    if bs.len() == 1 {
        assert(bs[0] == bs.last());
        lemma_block_ordered(bs[0].block);
    } else if bs.len() > 1 {
        lemma_branches_ordered(bs.drop_last());
        lemma_block_ordered(bs.last().block);
    }
}

pub proof fn lemma_statements_ordered(st: Seq<AssignmentModel>)
    ensures
        statements_size(st).0 <= statements_size(st).1,
    decreases stsize(st), 1nat,
{
    if st.len() > 0 {
        lemma_statements_ordered(st.drop_last());
        lemma_statement_ordered(st.last());
    }
}

/// The estimated range of a lambda runs from its smaller bound to its larger one.
pub proof fn law_estimate_ordered(l: LambdaModel)
    ensures
        lambda_size(l).0 <= lambda_size(l).1,
{
    lemma_statements_ordered(l.block.statements);
}

/// The range of a conditional holds the range of each of its branches, moved
/// by the cost of the condition and of the conditional itself.
pub proof fn law_if_range_holds_branches(a: AssignmentModel)
    requires
        a.expression is If,
    ensures
        statement_size(a).0 <= branch_block_size(a.expression->If_1).0 + value_size(a.expression->If_0) + 8,
        statement_size(a).0 <= branch_block_size(a.expression->If_2).0 + value_size(a.expression->If_0) + 8,
        branch_block_size(a.expression->If_1).1 + value_size(a.expression->If_0) + 8 <= statement_size(a).1,
        branch_block_size(a.expression->If_2).1 + value_size(a.expression->If_0) + 8 <= statement_size(a).1,
{
}

/// A prefix of statements is no larger than all of them, and its sizes are
/// known where theirs are.
proof fn lemma_statements_prefix(st: Seq<AssignmentModel>, i: int)
    requires
        0 <= i <= st.len(),
    ensures
        statements_size(st.take(i)).1 <= statements_size(st).1,
        statements_size_known(st) ==> statements_size_known(st.take(i)),
    decreases st.len(),
{
    if i < st.len() {
        lemma_statements_prefix(st.drop_last(), i);
        assert(st.drop_last().take(i) =~= st.take(i));
    } else {
        assert(st.take(i) =~= st);
    }
}

/// A non-empty prefix of branches ranges within all of them.
proof fn lemma_branches_prefix(bs: Seq<BranchModel>, i: int)
    requires
        1 <= i <= bs.len(),
    ensures
        branches_size(bs.take(i)).1 <= branches_size(bs).1,
        branches_size_known(bs) ==> branches_size_known(bs.take(i)),
    decreases bs.len(),
{
    if i < bs.len() {
        lemma_branches_prefix(bs.drop_last(), i);
        assert(bs.drop_last().take(i) =~= bs.take(i));
    } else {
        assert(bs.take(i) =~= bs);
    }
}

// ---------------------------------------------------------------------------
// The estimator.

/// Estimates the size of the code of a lambda from the table of code sizes.
pub struct CodeSizeEstimator {}

impl CodeSizeEstimator {
    fn builtin_size(built_in: &IntermediateBuiltIn) -> (res: usize)
        ensures
            res == 0,
    {
        let constants = code_size_constants();
        match built_in {
            IntermediateBuiltIn::Integer(_) => constants.builtin_int,
            IntermediateBuiltIn::Boolean(_) => constants.builtin_bool,
            IntermediateBuiltIn::BuiltInFn(_) => constants.builtin_fn,
        }
    }

    /// The size of the code of a value.
    pub fn value_size(value: &IntermediateValue) -> (res: usize)
        ensures
            res == value_size(value@),
    {
        match value {
            IntermediateValue::IntermediateBuiltIn(built_in) => Self::builtin_size(built_in),
            IntermediateValue::IntermediateMemory(_) | IntermediateValue::IntermediateArg(_) => {
                code_size_constants().memory_access
            },
        }
    }

    /// The size of the code of values: the sum of their sizes.
    pub fn values_size(values: &Vec<IntermediateValue>) -> (res: usize)
        ensures
            res == values_size(values_view(values@)),
            res == 0,
    {
        let mut total: usize = 0;
        let mut i: usize = 0;
        while i < values.len()
            invariant
                i <= values.len(),
                total == 0,
            decreases values.len() - i,
        {
            let size = Self::value_size(&values[i]);
            total = total + size;
            i = i + 1;
        }
        proof {
            lemma_values_size_zero(values_view(values@));
        }
        total
    }

    /// The size of the code of an expression; a call of a built-in operator
    /// costs that operator's size. A conditional or a match is measured with
    /// its branches by `statement_size`.
    pub fn expression_size(expression: &IntermediateExpression) -> (res: usize)
        requires
            size_known(expression@),
        ensures
            res == expression_size(expression@),
    {
        let values = expression.values();
        let values_size = Self::values_size(&values);
        let constants = code_size_constants();
        match expression {
            IntermediateExpression::IntermediateValue(_) => constants.value_expression + values_size,
            IntermediateExpression::IntermediateElementAccess(_) => constants.element_access + values_size,
            IntermediateExpression::IntermediateTupleExpression(_) => constants.tuple_expression + values_size,
            IntermediateExpression::IntermediateFnCall(call) => match &call.fn_ {
                IntermediateValue::IntermediateBuiltIn(IntermediateBuiltIn::BuiltInFn(BuiltInFn(id, _))) => {
                    let size = crate::code_size::find_op(&constants.operators, id);
                    proof {
                        lemma_op_size(constants.operators@, operator_sizes(), id@);
                    }
                    let args_size = Self::values_size(&call.args);
                    match size {
                        Some(s) => s + args_size,
                        None => {
                            proof {
                                assert(false);
                            }
                            0
                        },
                    }
                },
                _ => constants.fn_call + values_size,
            },
            IntermediateExpression::IntermediateCtorCall(_) => constants.ctor_call + values_size,
            IntermediateExpression::IntermediateLambda(_) => constants.lambda,
            IntermediateExpression::IntermediateIf(_) | IntermediateExpression::IntermediateMatch(_) => 0,
        }
    }

    /// The range of sizes of a statement.
    pub fn statement_size(statement: &IntermediateStatement) -> (res: (usize, usize))
        requires
            size_known(statement@.expression),
            statement_size(statement@).1 < usize::MAX,
        ensures
            as_range(res) == statement_size(statement@),
            res.0 <= res.1,
        decreases 1 + esize(statement@.expression), 0nat,
    {
        proof {
            lemma_statement_ordered(statement@);
        }
        match statement {
            IntermediateStatement::IntermediateAssignment(assignment) => match &assignment.expression {
                IntermediateExpression::IntermediateIf(if_statement) => Self::if_statement_size(if_statement),
                IntermediateExpression::IntermediateMatch(match_statement) => {
                    proof {
                        crate::intermediate::lemma_match_view(*match_statement);
                    }
                    Self::match_statement_size(match_statement)
                },
                _ => Self::assignment_size(assignment),
            },
        }
    }

    /// An assignment of any expression but a conditional or a match has one size.
    fn assignment_size(assignment: &IntermediateAssignment) -> (res: (usize, usize))
        requires
            size_known(assignment@.expression),
            expression_size(assignment@.expression) < usize::MAX,
        ensures
            as_range(res) == (expression_size(assignment@.expression), expression_size(assignment@.expression)),
    {
        let size = Self::expression_size(&assignment.expression) + code_size_constants().assignment;
        interval_singleton(size)
    }

    /// The range of a conditional: the hull of its branches, plus its condition.
    pub fn if_statement_size(if_statement: &IntermediateIf) -> (res: (usize, usize))
        requires
            statements_size_known(if_statement.branches.0@.statements),
            statements_size_known(if_statement.branches.1@.statements),
            range_shift(range_hull(branch_block_size(if_statement.branches.0@), branch_block_size(if_statement.branches.1@)),
                value_size(if_statement.condition@) + 8).1 < usize::MAX,
        ensures
            as_range(res) == range_shift(range_hull(branch_block_size(if_statement.branches.0@),
                branch_block_size(if_statement.branches.1@)), value_size(if_statement.condition@) + 8),
        decreases 1 + bsize(if_statement.branches.0@) + bsize(if_statement.branches.1@), 0nat,
    {
        let condition_size = Self::value_size(&if_statement.condition);
        let left = Self::block_size(&if_statement.branches.0);
        let right = Self::block_size(&if_statement.branches.1);
        let branch_sizes = interval_hull(left, right);
        let with_condition = interval_add_bound(branch_sizes, condition_size);
        interval_add_bound(with_condition, code_size_constants().if_statement)
    }

    /// The range of a block: its statements, plus its returned value.
    fn block_size(block: &IntermediateBlock) -> (res: (usize, usize))
        requires
            statements_size_known(block@.statements),
            branch_block_size(block@).1 < usize::MAX,
        ensures
            as_range(res) == branch_block_size(block@),
            res.0 <= res.1,
        decreases bsize(block@), 2nat,
    {
        proof {
            crate::intermediate::lemma_block_view(*block);
        }
        let statements = Self::statements_size(&block.statements);
        let ret = Self::value_size(&block.ret);
        interval_add_bound(statements, ret)
    }

    /// The range of a match: the hull of its branches, plus its subject.
    pub fn match_statement_size(match_statement: &IntermediateMatch) -> (res: (usize, usize))
        requires
            match_statement.branches@.len() > 0,
            branches_size_known(branches_view(match_statement.branches@)),
            range_shift(branches_size(branches_view(match_statement.branches@)), value_size(match_statement.subject@) + 8).1
                < usize::MAX,
        ensures
            as_range(res) == range_shift(branches_size(branches_view(match_statement.branches@)),
                value_size(match_statement.subject@) + 8),
        decreases 1 + brsize(branches_view(match_statement.branches@)), 0nat,
    {
        let ghost bs = branches_view(match_statement.branches@);
        let subject_size = Self::value_size(&match_statement.subject);
        proof {
            lemma_branches_prefix(bs, 1);
            crate::compiler::lemma_brsize_prefix(bs, 1);
            assert(bs.take(1).last() == bs[0]);
            assert(bs.take(1)[0] == bs[0]);
            lemma_block_ordered(bs[0].block);
        }
        let mut branch_sizes = Self::match_branch_size(&match_statement.branches[0]);
        let mut i: usize = 1;
        while i < match_statement.branches.len()
            invariant
                1 <= i <= match_statement.branches.len(),
                bs == branches_view(match_statement.branches@),
                branches_size_known(bs),
                branches_size(bs).1 < usize::MAX,
                as_range(branch_sizes) == branches_size(bs.take(i as int)),
                branch_sizes.0 <= branch_sizes.1,
            decreases match_statement.branches.len() - i,
        {
            proof {
                lemma_branches_prefix(bs, i + 1);
                lemma_branches_prefix(bs, i as int);
                crate::compiler::lemma_brsize_prefix(bs, i + 1);
                assert(bs.take(i + 1).drop_last() =~= bs.take(i as int));
                assert(bs.take(i + 1).last() == bs[i as int]);
                lemma_block_ordered(bs[i as int].block);
            }
            let size = Self::match_branch_size(&match_statement.branches[i]);
            branch_sizes = interval_hull(branch_sizes, size);
            i = i + 1;
        }
        proof {
            assert(bs.take(match_statement.branches.len() as int) =~= bs);
        }
        let with_subject = interval_add_bound(branch_sizes, subject_size);
        interval_add_bound(with_subject, code_size_constants().match_statement)
    }

    /// The range of a branch of a match.
    fn match_branch_size(match_branch: &IntermediateMatchBranch) -> (res: (usize, usize))
        requires
            statements_size_known(match_branch@.block.statements),
            branch_block_size(match_branch@.block).1 < usize::MAX,
        ensures
            as_range(res) == branch_block_size(match_branch@.block),
            res.0 <= res.1,
        decreases bsize(match_branch@.block), 3nat,
    {
        Self::block_size(&match_branch.block)
    }

    /// The range of statements: the sum of their ranges.
    pub fn statements_size(statements: &Vec<IntermediateStatement>) -> (res: (usize, usize))
        requires
            statements_size_known(statements_view(statements@)),
            statements_size(statements_view(statements@)).1 < usize::MAX,
        ensures
            as_range(res) == statements_size(statements_view(statements@)),
            res.0 <= res.1,
        decreases stsize(statements_view(statements@)), 1nat,
    {
        let ghost st = statements_view(statements@);
        let mut total = interval_singleton(0);
        let mut i: usize = 0;
        proof {
            assert(st.take(0) =~= Seq::<AssignmentModel>::empty());
        }
        while i < statements.len()
            invariant
                i <= statements.len(),
                st == statements_view(statements@),
                statements_size_known(st),
                statements_size(st).1 < usize::MAX,
                as_range(total) == statements_size(st.take(i as int)),
                total.0 <= total.1,
            decreases statements.len() - i,
        {
            proof {
                lemma_statements_prefix(st, i + 1);
                crate::compiler::lemma_stsize_prefix(st, i + 1);
                assert(st.take(i + 1).drop_last() =~= st.take(i as int));
                assert(st.take(i + 1).last() == st[i as int]);
                lemma_statement_ordered(st[i as int]);
            }
            let size = Self::statement_size(&statements[i]);
            total = interval_add(total, size);
            i = i + 1;
        }
        proof {
            assert(st.take(statements.len() as int) =~= st);
        }
        total
    }

    /// The range of sizes of the code of a lambda, from its smallest to its
    /// largest run.
    pub fn estimate_size(lambda: &IntermediateLambda) -> (res: (usize, usize))
        requires
            statements_size_known(lambda@.block.statements),
            lambda_size(lambda@).1 < usize::MAX,
        ensures
            as_range(res) == lambda_size(lambda@),
    {
        proof {
            crate::intermediate::lemma_block_view(lambda.block);
            lemma_statements_ordered(lambda@.block.statements);
        }
        let statements = Self::statements_size(&lambda.block.statements);
        let ret = Self::value_size(&lambda.block.ret);
        interval_add_bound(statements, ret)
    }
}

} // verus!
