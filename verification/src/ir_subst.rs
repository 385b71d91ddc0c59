//! Renaming the locations of intermediate code.

use vstd::prelude::*;
use crate::intermediate::{
    args_view, branches_view, lemma_block_view, lemma_match_view, option_arg_view,
    option_value_view, statements_view, IntermediateArg, IntermediateAssignment,
    IntermediateBlock, IntermediateCtorCall, IntermediateElementAccess, IntermediateExpression,
    IntermediateFnCall, IntermediateIf, IntermediateLambda, IntermediateMatch,
    IntermediateMatchBranch, IntermediateStatement, IntermediateTupleExpression, Location,
};
use crate::ir_clone::clone_args;
use crate::ir_model::{subst_block, subst_expression, subst_location, subst_statement, subst_statements};
use crate::ir_ops::Substitution;

verus! {

broadcast use vstd::std_specs::hash::group_hash_axioms;

fn substitute_location(location: Location, substitution: &Substitution) -> (res: Location)
    ensures
        res.0 == subst_location(substitution@, location.0),
{
    match substitution.get(&location.0) {
        Some(l) => Location(*l),
        None => location,
    }
}

fn clone_option_arg(a: &Option<IntermediateArg>) -> (res: Option<IntermediateArg>)
    ensures
        option_arg_view(res) == option_arg_view(*a),
{
    match a {
        None => None,
        Some(a) => Some(a.clone()),
    }
}

/// Match branches with the locations of their blocks renamed; their bound arguments are kept.
fn substituted_branches(branches: &Vec<IntermediateMatchBranch>, substitution: &Substitution) -> (res: Vec<IntermediateMatchBranch>)
    ensures
        res@.len() == branches@.len(),
        forall|j: int| 0 <= j < branches@.len() ==> (#[trigger] res@[j])@ == (crate::ir_model::BranchModel {
            target: branches@[j]@.target,
            block: subst_block(branches@[j]@.block, substitution@),
        }),
    decreases branches,
{
    let mut out: Vec<IntermediateMatchBranch> = Vec::new();
    let mut k: usize = 0;
    while k < branches.len()
        invariant
            k <= branches.len(),
            out@.len() == k,
            forall|j: int| 0 <= j < k ==> (#[trigger] out@[j])@ == (crate::ir_model::BranchModel {
                target: branches@[j]@.target,
                block: subst_block(branches@[j]@.block, substitution@),
            }),
        decreases branches.len() - k,
    {
        let b = IntermediateMatchBranch {
            target: clone_option_arg(&branches[k].target),
            block: branches[k].block.substituted(substitution),
        };
        out.push(b);
        k = k + 1;
    }
    out
}

impl IntermediateExpression {
    /// The expression with its locations renamed.
    pub fn substituted(&self, substitution: &Substitution) -> (res: IntermediateExpression)
        ensures
            res@ == subst_expression(self@, substitution@),
        decreases self,
    {
        match self {
            IntermediateExpression::IntermediateValue(v) => IntermediateExpression::IntermediateValue(v.substitute(substitution)),
            IntermediateExpression::IntermediateElementAccess(e) => IntermediateExpression::IntermediateElementAccess(
                IntermediateElementAccess { value: e.value.substitute(substitution), idx: e.idx },
            ),
            IntermediateExpression::IntermediateTupleExpression(t) => IntermediateExpression::IntermediateTupleExpression(
                IntermediateTupleExpression(crate::intermediate::IntermediateValue::substitute_all(&t.0, substitution)),
            ),
            IntermediateExpression::IntermediateFnCall(f) => IntermediateExpression::IntermediateFnCall(IntermediateFnCall {
                fn_: f.fn_.substitute(substitution),
                args: crate::intermediate::IntermediateValue::substitute_all(&f.args, substitution),
            }),
            IntermediateExpression::IntermediateCtorCall(c) => {
                let data = match &c.data {
                    None => None,
                    Some(v) => Some(v.substitute(substitution)),
                };
                IntermediateExpression::IntermediateCtorCall(IntermediateCtorCall { idx: c.idx, data, type_: c.type_.clone() })
            },
            IntermediateExpression::IntermediateLambda(l) => IntermediateExpression::IntermediateLambda(l.substituted(substitution)),
            IntermediateExpression::IntermediateIf(i) => IntermediateExpression::IntermediateIf(IntermediateIf {
                condition: i.condition.substitute(substitution),
                branches: (i.branches.0.substituted(substitution), i.branches.1.substituted(substitution)),
            }),
            IntermediateExpression::IntermediateMatch(m) => {
                let branches = substituted_branches(&m.branches, substitution);
                let res = IntermediateMatch { subject: m.subject.substitute(substitution), branches };
                proof {
                    lemma_match_view(*m);
                    lemma_match_view(res);
                    let s = subst_expression(self@, substitution@);
                    assert(s->Match_1 =~= branches_view(res.branches@));
                }
                IntermediateExpression::IntermediateMatch(res)
            },
        }
    }

    /// Renames the locations of the expression.
    pub fn substitute(&mut self, substitution: &Substitution)
        ensures
            final(self)@ == subst_expression(old(self)@, substitution@),
    {
        let res = self.substituted(substitution);
        *self = res;
    }
}

impl IntermediateLambda {
    /// The lambda with the locations of its body renamed; its arguments are kept.
    pub fn substituted(&self, substitution: &Substitution) -> (res: IntermediateLambda)
        ensures
            res@.args == self@.args,
            res@.block == subst_block(self@.block, substitution@),
        decreases self,
    {
        IntermediateLambda { args: clone_args(&self.args), block: self.block.substituted(substitution) }
    }

    /// Renames the locations of the lambda's body.
    pub fn substitute(&mut self, substitution: &Substitution)
        ensures
            final(self)@.args == old(self)@.args,
            final(self)@.block == subst_block(old(self)@.block, substitution@),
    {
        let res = self.substituted(substitution);
        *self = res;
    }
}

impl IntermediateBlock {
    /// The block with its locations renamed.
    pub fn substituted(&self, substitution: &Substitution) -> (res: IntermediateBlock)
        ensures
            res@ == subst_block(self@, substitution@),
        decreases self,
    {
        let statements = IntermediateStatement::substituted_all(&self.statements, substitution);
        let res = IntermediateBlock { statements, ret: self.ret.substitute(substitution) };
        proof {
            lemma_block_view(*self);
            lemma_block_view(res);
        }
        res
    }

    /// Renames the locations of the block.
    pub fn substitute(&mut self, substitution: &Substitution)
        ensures
            final(self)@ == subst_block(old(self)@, substitution@),
    {
        let res = self.substituted(substitution);
        *self = res;
    }
}

impl IntermediateStatement {
    /// The statement with its target and the locations of its expression renamed.
    pub fn substituted(&self, substitution: &Substitution) -> (res: IntermediateStatement)
        ensures
            res@ == subst_statement(self@, substitution@),
        decreases self,
    {
        match self {
            IntermediateStatement::IntermediateAssignment(a) => IntermediateStatement::IntermediateAssignment(
                IntermediateAssignment {
                    expression: a.expression.substituted(substitution),
                    location: substitute_location(a.location, substitution),
                },
            ),
        }
    }

    /// Statements with their locations renamed.
    pub fn substituted_all(statements: &Vec<IntermediateStatement>, substitution: &Substitution) -> (res: Vec<IntermediateStatement>)
        ensures
            statements_view(res@) == subst_statements(statements_view(statements@), substitution@),
        decreases statements,
    {
        let mut out: Vec<IntermediateStatement> = Vec::new();
        let mut i: usize = 0;
        while i < statements.len()
            invariant
                i <= statements.len(),
                out@.len() == i,
                forall|j: int| 0 <= j < i ==> (#[trigger] out@[j])@ == subst_statement(statements@[j]@, substitution@),
            decreases statements.len() - i,
        {
            out.push(statements[i].substituted(substitution));
            i = i + 1;
        }
        proof {
            assert(statements_view(out@) =~= subst_statements(statements_view(statements@), substitution@));
        }
        out
    }

    /// Renames the locations of the statement.
    pub fn substitute(&mut self, substitution: &Substitution)
        ensures
            final(self)@ == subst_statement(old(self)@, substitution@),
    {
        let res = self.substituted(substitution);
        *self = res;
    }

    /// Renames the locations of every statement.
    pub fn substitute_all(statements: &mut Vec<IntermediateStatement>, substitution: &Substitution)
        ensures
            statements_view(final(statements)@) == subst_statements(statements_view(old(statements)@), substitution@),
    {
        let res = IntermediateStatement::substituted_all(statements, substitution);
        *statements = res;
    }
}

} // verus!
