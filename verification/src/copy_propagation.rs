//! Copy propagation: reads of locations that merely copy another value are
//! replaced by that value, and assignments of plain values are removed.

use std::collections::HashMap;
use vstd::prelude::*;
use crate::intermediate::{
    branches_view, lemma_block_view, lemma_match_view, statements_view, values_view,
    IntermediateBlock, IntermediateCtorCall, IntermediateElementAccess, IntermediateExpression,
    IntermediateFnCall, IntermediateIf, IntermediateLambda, IntermediateMatch,
    IntermediateMatchBranch, IntermediateStatement, IntermediateTupleExpression, IntermediateValue,
    IntermediateAssignment,
};
use crate::ir_clone::clone_args;
use crate::ir_model::{
    AssignmentModel, BlockModel, BranchModel, ExpressionModel, LambdaModel, ValueModel,
};

verus! {

broadcast use vstd::std_specs::hash::group_hash_axioms;

/// The expression assigned to each location, keyed by the location's number.
pub type MemoryMap = HashMap<usize, IntermediateExpression>;

/// The model of a memory map.
pub open spec fn memory_view(m: Map<usize, IntermediateExpression>) -> Map<usize, ExpressionModel> {
    Map::new(|k: usize| m.contains_key(k), |k: usize| m[k]@)
}

// ---------------------------------------------------------------------------
// Following chains of copies.

/// The value that a value copies, if it is a memory location assigned a plain value.
pub open spec fn copy_step(m: Map<usize, ExpressionModel>, v: ValueModel) -> Option<ValueModel> {
    match v {
        ValueModel::Memory(s) => if m.contains_key(s.location) {
            match m[s.location] {
                ExpressionModel::Value(w) => Some(w),
                _ => None,
            }
        } else {
            None
        },
        _ => None,
    }
}

/// The value reached from `v` after following at most `n` copies.
pub open spec fn follow(m: Map<usize, ExpressionModel>, v: ValueModel, n: nat) -> ValueModel
    decreases n,
{
    if n == 0 {
        v
    } else {
        match copy_step(m, v) {
            Some(w) => follow(m, w, (n - 1) as nat),
            None => v,
        }
    }
}

/// Whether following copies from `v` reaches a value that is not a copy.
pub open spec fn chain_ends(m: Map<usize, ExpressionModel>, v: ValueModel) -> bool {
    exists|n: nat| copy_step(m, #[trigger] follow(m, v, n)) is None
}

/// A number of copies after which the chain starting at `v` has ended, if it ends.
pub open spec fn chain_length(m: Map<usize, ExpressionModel>, v: ValueModel) -> nat {
    choose|n: nat| copy_step(m, #[trigger] follow(m, v, n)) is None
}

/// The value at the end of the chain of copies starting at `v`.
pub open spec fn resolve(m: Map<usize, ExpressionModel>, v: ValueModel) -> ValueModel {
    follow(m, v, chain_length(m, v))
}

/// Whether every chain of copies in a memory map ends.
pub open spec fn copies_end(m: Map<usize, ExpressionModel>) -> bool {
    forall|v: ValueModel| #[trigger] chain_ends(m, v)
}

pub proof fn lemma_follow_succ(m: Map<usize, ExpressionModel>, v: ValueModel, k: nat)
    ensures
        follow(m, v, k + 1) == match copy_step(m, follow(m, v, k)) {
            Some(w) => w,
            None => follow(m, v, k),
        },
    decreases k,
{
    reveal_with_fuel(follow, 2);
    if k > 0 {
        match copy_step(m, v) {
            Some(w) => lemma_follow_succ(m, w, (k - 1) as nat),
            None => {},
        }
    }
}

pub proof fn lemma_follow_fixed(m: Map<usize, ExpressionModel>, v: ValueModel, a: nat, b: nat)
    requires
        a <= b,
        copy_step(m, follow(m, v, a)) is None,
    ensures
        follow(m, v, b) == follow(m, v, a),
    decreases b - a,
{
    if a < b {
        lemma_follow_fixed(m, v, a, (b - 1) as nat);
        lemma_follow_succ(m, v, (b - 1) as nat);
    }
}

/// A value that is not a copy is its own end of chain.
pub proof fn lemma_resolve_final(m: Map<usize, ExpressionModel>, v: ValueModel)
    requires
        copy_step(m, v) is None,
    ensures
        chain_ends(m, v),
        resolve(m, v) == v,
{
    assert(follow(m, v, 0) == v);
    lemma_follow_fixed(m, v, 0, chain_length(m, v));
}

/// The end of a chain of copies is not a copy.
pub proof fn lemma_resolve_is_final(m: Map<usize, ExpressionModel>, v: ValueModel)
    requires
        chain_ends(m, v),
    ensures
        copy_step(m, resolve(m, v)) is None,
{
}

// ---------------------------------------------------------------------------
// Registering assignments.

pub open spec fn register_statements(m: Map<usize, ExpressionModel>, st: Seq<AssignmentModel>) -> Map<usize, ExpressionModel>
    decreases st,
{
    if st.len() == 0 {
        m
    } else {
        register_statement(register_statements(m, st.drop_last()), st.last())
    }
}

/// Registering an assignment: first the assignments nested in its expression,
/// then the assignment itself.
pub open spec fn register_statement(m: Map<usize, ExpressionModel>, a: AssignmentModel) -> Map<usize, ExpressionModel>
    decreases a,
{
    register_nested(m, a.expression).insert(a.location, a.expression)
}

pub open spec fn register_nested(m: Map<usize, ExpressionModel>, e: ExpressionModel) -> Map<usize, ExpressionModel>
    decreases e,
{
    match e {
        ExpressionModel::Lambda(l) => register_statements(m, l.block.statements),
        ExpressionModel::If(_, t, f) => register_statements(register_statements(m, t.statements), f.statements),
        ExpressionModel::Match(_, bs) => register_branches(m, bs),
        _ => m,
    }
}

pub open spec fn register_branches(m: Map<usize, ExpressionModel>, bs: Seq<BranchModel>) -> Map<usize, ExpressionModel>
    decreases bs,
{
    if bs.len() == 0 {
        m
    } else {
        register_statements(register_branches(m, bs.drop_last()), bs.last().block.statements)
    }
}

// ---------------------------------------------------------------------------
// Propagation.

pub open spec fn propagate_values(m: Map<usize, ExpressionModel>, vs: Seq<ValueModel>) -> Seq<ValueModel> {
    vs.map_values(|v: ValueModel| resolve(m, v))
}

pub open spec fn propagate_expression(m: Map<usize, ExpressionModel>, e: ExpressionModel) -> ExpressionModel
    decreases e,
{
    match e {
        ExpressionModel::Value(v) => ExpressionModel::Value(resolve(m, v)),
        ExpressionModel::ElementAccess(v, i) => ExpressionModel::ElementAccess(resolve(m, v), i),
        ExpressionModel::Tuple(vs) => ExpressionModel::Tuple(propagate_values(m, vs)),
        ExpressionModel::FnCall(f, args) => ExpressionModel::FnCall(resolve(m, f), propagate_values(m, args)),
        ExpressionModel::CtorCall(i, d, t) => ExpressionModel::CtorCall(i, match d {
            None => None,
            Some(v) => Some(resolve(m, v)),
        }, t),
        ExpressionModel::Lambda(l) => ExpressionModel::Lambda(LambdaModel { args: l.args, block: propagate_block(m, l.block) }),
        ExpressionModel::If(c, t, f) => ExpressionModel::If(resolve(m, c), propagate_block(m, t), propagate_block(m, f)),
        ExpressionModel::Match(s, bs) => ExpressionModel::Match(resolve(m, s), Seq::new(bs.len(), |i: int|
            if 0 <= i < bs.len() {
                BranchModel { target: bs[i].target, block: propagate_block(m, bs[i].block) }
            } else {
                bs[i]
            })),
    }
}

/// Propagating a sequence of statements drops the assignments of plain values
/// and propagates the expressions of the others.
pub open spec fn propagate_statements(m: Map<usize, ExpressionModel>, st: Seq<AssignmentModel>) -> Seq<AssignmentModel>
    decreases st,
{
    if st.len() == 0 {
        Seq::empty()
    } else {
        let rest = propagate_statements(m, st.drop_last());
        let a = st.last();
        if a.expression is Value {
            rest
        } else {
            rest.push(AssignmentModel { expression: propagate_expression(m, a.expression), location: a.location })
        }
    }
}

pub open spec fn propagate_block(m: Map<usize, ExpressionModel>, b: BlockModel) -> BlockModel
    decreases b,
{
    BlockModel { statements: propagate_statements(m, b.statements), ret: resolve(m, b.ret) }
}

/// Whether every chain of copies that the given values start ends.
pub open spec fn values_end(m: Map<usize, ExpressionModel>, vs: Seq<ValueModel>) -> bool {
    forall|j: int| 0 <= j < vs.len() ==> #[trigger] chain_ends(m, vs[j])
}

/// Whether every chain of copies that propagation follows in an expression
/// ends: those of the values it reads, in nested blocks too.
pub open spec fn expression_reads_end(m: Map<usize, ExpressionModel>, e: ExpressionModel) -> bool
    decreases e,
{
    match e {
        ExpressionModel::Value(v) => chain_ends(m, v),
        ExpressionModel::ElementAccess(v, _) => chain_ends(m, v),
        ExpressionModel::Tuple(vs) => values_end(m, vs),
        ExpressionModel::FnCall(f, args) => chain_ends(m, f) && values_end(m, args),
        ExpressionModel::CtorCall(_, d, _) => match d {
            None => true,
            Some(v) => chain_ends(m, v),
        },
        ExpressionModel::Lambda(l) => block_reads_end(m, l.block),
        ExpressionModel::If(c, t, f) => chain_ends(m, c) && block_reads_end(m, t) && block_reads_end(m, f),
        ExpressionModel::Match(x, bs) => chain_ends(m, x) && forall|i: int| 0 <= i < bs.len() ==> block_reads_end(m, #[trigger] bs[i].block),
    }
}

/// Whether the chains of copies that propagation follows in statements end;
/// the assignments of plain values are dropped and not read.
pub open spec fn statements_reads_end(m: Map<usize, ExpressionModel>, st: Seq<AssignmentModel>) -> bool
    decreases st,
{
    forall|i: int| 0 <= i < st.len() ==> (st[i].expression is Value || expression_reads_end(m, #[trigger] st[i].expression))
}

pub open spec fn block_reads_end(m: Map<usize, ExpressionModel>, b: BlockModel) -> bool
    decreases b,
{
    statements_reads_end(m, b.statements) && chain_ends(m, b.ret)
}

/// Removes unnecessary assignments: every read of a location that only copies
/// another value reads that value instead.
pub struct CopyPropagator {
    memory: MemoryMap,
}

impl View for CopyPropagator {
    type V = Map<usize, ExpressionModel>;

    closed spec fn view(&self) -> Map<usize, ExpressionModel> {
        memory_view(self.memory@)
    }
}

impl CopyPropagator {
    /// A propagator that knows the given assignments.
    pub fn from_memory_map(memory_map: MemoryMap) -> (res: Self)
        ensures
            res@ == memory_view(memory_map@),
    {
        CopyPropagator { memory: memory_map }
    }

    /// A propagator that knows every assignment in the statements, including
    /// those nested in lambdas, conditionals and matches.
    pub fn from_statements(statements: &Vec<IntermediateStatement>) -> (res: Self)
        ensures
            res@ == register_statements(Map::empty(), statements_view(statements@)),
    {
        let mut propagator = CopyPropagator::from_memory_map(HashMap::new());
        proof {
            assert(propagator@ =~= Map::empty());
        }
        propagator.register_memory(statements);
        propagator
    }

    /// Records every assignment of the statements.
    fn register_memory(&mut self, statements: &Vec<IntermediateStatement>)
        ensures
            final(self)@ == register_statements(old(self)@, statements_view(statements@)),
        decreases statements,
    {
        let ghost m0 = self@;
        let mut i: usize = 0;
        while i < statements.len()
            invariant
                i <= statements.len(),
                self@ == register_statements(m0, statements_view(statements@).take(i as int)),
            decreases statements.len() - i,
        {
            match &statements[i] {
                IntermediateStatement::IntermediateAssignment(a) => self.register_assignment(a),
            }
            proof {
                let ss = statements_view(statements@);
                assert(ss.take(i + 1).drop_last() =~= ss.take(i as int));
            }
            i = i + 1;
        }
        proof {
            assert(statements_view(statements@).take(statements.len() as int) =~= statements_view(statements@));
        }
    }

    /// Records the assignments nested in an assignment's expression, then the assignment.
    fn register_assignment(&mut self, assignment: &IntermediateAssignment)
        ensures
            final(self)@ == register_statement(old(self)@, assignment@),
        decreases assignment,
    {
        let expression = &assignment.expression;
        let ghost before = self@;
        match expression {
            IntermediateExpression::IntermediateLambda(l) => {
                proof {
                    lemma_block_view(l.block);
                }
                self.register_memory(&l.block.statements);
            },
            IntermediateExpression::IntermediateIf(c) => {
                proof {
                    lemma_block_view(c.branches.0);
                    lemma_block_view(c.branches.1);
                }
                self.register_memory(&c.branches.0.statements);
                self.register_memory(&c.branches.1.statements);
            },
            IntermediateExpression::IntermediateMatch(m) => {
                proof {
                    lemma_match_view(*m);
                }
                self.register_branches(&m.branches);
            },
            _ => {},
        }
        proof {
            assert(self@ == register_nested(before, expression@));
        }
        self.memory.insert(assignment.location.0, expression.clone());
        proof {
            assert(self@ =~= register_nested(before, expression@).insert(assignment.location.0, expression@));
        }
    }

    fn register_branches(&mut self, branches: &Vec<IntermediateMatchBranch>)
        ensures
            final(self)@ == register_branches(old(self)@, branches_view(branches@)),
        decreases branches,
    {
        let ghost m0 = self@;
        let mut i: usize = 0;
        while i < branches.len()
            invariant
                i <= branches.len(),
                self@ == register_branches(m0, branches_view(branches@).take(i as int)),
            decreases branches.len() - i,
        {
            proof {
                lemma_block_view(branches@[i as int].block);
            }
            self.register_memory(&branches[i].block.statements);
            proof {
                let bs = branches_view(branches@);
                assert(bs.take(i + 1).drop_last() =~= bs.take(i as int));
            }
            i = i + 1;
        }
        proof {
            assert(branches_view(branches@).take(branches.len() as int) =~= branches_view(branches@));
        }
    }
}

impl CopyPropagator {
    /// The value at the end of the chain of copies that starts at `value`.
    pub fn propagate_copies_in_value(&self, value: &IntermediateValue) -> (res: IntermediateValue)
        requires
            chain_ends(self@, value@),
        ensures
            res@ == resolve(self@, value@),
            copy_step(self@, res@) is None,
    {
        let ghost m = self@;
        let ghost n = chain_length(m, value@);
        let mut current = value.clone();
        let ghost mut k: nat = 0;
        loop
            invariant
                m == self@,
                n == chain_length(m, value@),
                copy_step(m, follow(m, value@, n)) is None,
                k <= n,
                current@ == follow(m, value@, k),
            decreases n - k,
        {
            let next = match &current {
                IntermediateValue::IntermediateMemory(memory) => match self.memory.get(&memory.location.0) {
                    Some(IntermediateExpression::IntermediateValue(w)) => Some(w.clone()),
                    _ => None,
                },
                _ => None,
            };
            proof {
                assert(match next {
                    None => copy_step(m, current@) is None,
                    Some(w) => copy_step(m, current@) == Some(w@),
                });
                lemma_follow_succ(m, value@, k);
            }
            match next {
                None => {
                    proof {
                        lemma_follow_fixed(m, value@, k, n);
                    }
                    return current;
                },
                Some(w) => {
                    proof {
                        if k == n {
                            assert(false);
                        }
                        k = k + 1;
                    }
                    current = w;
                },
            }
        }
    }

    /// Propagates copies in each value.
    pub fn propagate_copies_in_values(&self, values: &Vec<IntermediateValue>) -> (res: Vec<IntermediateValue>)
        requires
            values_end(self@, values_view(values@)),
        ensures
            values_view(res@) == propagate_values(self@, values_view(values@)),
    {
        let mut out: Vec<IntermediateValue> = Vec::new();
        let mut i: usize = 0;
        while i < values.len()
            invariant
                i <= values.len(),
                values_end(self@, values_view(values@)),
                out@.len() == i,
                forall|j: int| 0 <= j < i ==> (#[trigger] out@[j])@ == resolve(self@, values@[j]@),
            decreases values.len() - i,
        {
            proof {
                assert(values_view(values@)[i as int] == values@[i as int]@);
                assert(chain_ends(self@, values@[i as int]@));
            }
            out.push(self.propagate_copies_in_value(&values[i]));
            i = i + 1;
        }
        proof {
            assert(values_view(out@) =~= propagate_values(self@, values_view(values@)));
        }
        out
    }

    /// Propagates copies in every value that an expression reads, including
    /// inside nested blocks.
    pub fn propagate_copies_in_expression(&self, expression: &IntermediateExpression) -> (res: IntermediateExpression)
        requires
            expression_reads_end(self@, expression@),
        ensures
            res@ == propagate_expression(self@, expression@),
        decreases expression,
    {
        proof {
            match expression {
                IntermediateExpression::IntermediateLambda(l) => lemma_block_view(l.block),
                IntermediateExpression::IntermediateIf(i) => {
                    lemma_block_view(i.branches.0);
                    lemma_block_view(i.branches.1);
                },
                IntermediateExpression::IntermediateMatch(m) => {
                    lemma_match_view(*m);
                    assert forall|j: int| 0 <= j < m.branches@.len() implies block_reads_end(self@, #[trigger] m.branches@[j]@.block) by {
                        assert(branches_view(m.branches@)[j] == m.branches@[j]@);
                    }
                },
                _ => {},
            }
        }
        match expression {
            IntermediateExpression::IntermediateValue(v) => IntermediateExpression::IntermediateValue(self.propagate_copies_in_value(v)),
            IntermediateExpression::IntermediateElementAccess(e) => IntermediateExpression::IntermediateElementAccess(
                IntermediateElementAccess { value: self.propagate_copies_in_value(&e.value), idx: e.idx },
            ),
            IntermediateExpression::IntermediateTupleExpression(t) => IntermediateExpression::IntermediateTupleExpression(
                IntermediateTupleExpression(self.propagate_copies_in_values(&t.0)),
            ),
            IntermediateExpression::IntermediateFnCall(f) => IntermediateExpression::IntermediateFnCall(IntermediateFnCall {
                fn_: self.propagate_copies_in_value(&f.fn_),
                args: self.propagate_copies_in_values(&f.args),
            }),
            IntermediateExpression::IntermediateCtorCall(c) => {
                let data = match &c.data {
                    None => None,
                    Some(v) => Some(self.propagate_copies_in_value(v)),
                };
                IntermediateExpression::IntermediateCtorCall(IntermediateCtorCall { idx: c.idx, data, type_: c.type_.clone() })
            },
            IntermediateExpression::IntermediateLambda(l) => IntermediateExpression::IntermediateLambda(IntermediateLambda {
                args: clone_args(&l.args),
                block: self.propagate_copies_in_block(&l.block),
            }),
            IntermediateExpression::IntermediateIf(i) => IntermediateExpression::IntermediateIf(IntermediateIf {
                condition: self.propagate_copies_in_value(&i.condition),
                branches: (self.propagate_copies_in_block(&i.branches.0), self.propagate_copies_in_block(&i.branches.1)),
            }),
            IntermediateExpression::IntermediateMatch(m) => {
                let branches = self.propagate_copies_in_branches(&m.branches);
                let res = IntermediateMatch { subject: self.propagate_copies_in_value(&m.subject), branches };
                proof {
                    lemma_match_view(*m);
                    lemma_match_view(res);
                    let p = propagate_expression(self@, expression@);
                    assert(p->Match_1 =~= branches_view(res.branches@));
                }
                IntermediateExpression::IntermediateMatch(res)
            },
        }
    }

    fn propagate_copies_in_branches(&self, branches: &Vec<IntermediateMatchBranch>) -> (res: Vec<IntermediateMatchBranch>)
        requires
            forall|j: int| 0 <= j < branches@.len() ==> block_reads_end(self@, #[trigger] branches@[j]@.block),
        ensures
            res@.len() == branches@.len(),
            forall|j: int| 0 <= j < branches@.len() ==> (#[trigger] res@[j])@ == (BranchModel {
                target: branches@[j]@.target,
                block: propagate_block(self@, branches@[j]@.block),
            }),
        decreases branches,
    {
        let mut out: Vec<IntermediateMatchBranch> = Vec::new();
        let mut k: usize = 0;
        while k < branches.len()
            invariant
                k <= branches.len(),
                forall|j: int| 0 <= j < branches@.len() ==> block_reads_end(self@, #[trigger] branches@[j]@.block),
                out@.len() == k,
                forall|j: int| 0 <= j < k ==> (#[trigger] out@[j])@ == (BranchModel {
                    target: branches@[j]@.target,
                    block: propagate_block(self@, branches@[j]@.block),
                }),
            decreases branches.len() - k,
        {
            let target = match &branches[k].target {
                None => None,
                Some(a) => Some(a.clone()),
            };
            proof {
                assert(block_reads_end(self@, branches@[k as int]@.block));
                assert(branches@[k as int]@.block == branches@[k as int].block@);
            }
            out.push(IntermediateMatchBranch { target, block: self.propagate_copies_in_block(&branches[k].block) });
            k = k + 1;
        }
        out
    }

    /// Drops an assignment of a plain value; otherwise propagates copies in the
    /// assigned expression.
    pub fn propagate_copies_in_statement(&self, statement: &IntermediateStatement) -> (res: Option<IntermediateStatement>)
        requires
            statement@.expression is Value || expression_reads_end(self@, statement@.expression),
        ensures
            match res {
                None => statement@.expression is Value,
                Some(r) => !(statement@.expression is Value) && r@ == (AssignmentModel {
                    expression: propagate_expression(self@, statement@.expression),
                    location: statement@.location,
                }),
            },
        decreases statement,
    {
        match statement {
            IntermediateStatement::IntermediateAssignment(a) => {
                if let IntermediateExpression::IntermediateValue(_) = &a.expression {
                    return None;
                }
                Some(IntermediateStatement::IntermediateAssignment(IntermediateAssignment {
                    location: a.location,
                    expression: self.propagate_copies_in_expression(&a.expression),
                }))
            },
        }
    }

    /// Propagates copies in a sequence of statements, dropping the assignments
    /// of plain values.
    pub fn propagate_copies_in_statements(&self, statements: &Vec<IntermediateStatement>) -> (res: Vec<IntermediateStatement>)
        requires
            statements_reads_end(self@, statements_view(statements@)),
        ensures
            statements_view(res@) == propagate_statements(self@, statements_view(statements@)),
        decreases statements,
    {
        let mut out: Vec<IntermediateStatement> = Vec::new();
        let mut i: usize = 0;
        while i < statements.len()
            invariant
                i <= statements.len(),
                statements_reads_end(self@, statements_view(statements@)),
                statements_view(out@) == propagate_statements(self@, statements_view(statements@).take(i as int)),
            decreases statements.len() - i,
        {
            let ghost o0 = out@;
            proof {
                assert(statements_view(statements@)[i as int] == statements@[i as int]@);
            }
            match self.propagate_copies_in_statement(&statements[i]) {
                None => {},
                Some(s) => {
                    out.push(s);
                    proof {
                        assert(statements_view(out@) =~= statements_view(o0).push(s@));
                    }
                },
            }
            proof {
                let ss = statements_view(statements@);
                assert(ss.take(i + 1).drop_last() =~= ss.take(i as int));
            }
            i = i + 1;
        }
        proof {
            assert(statements_view(statements@).take(statements.len() as int) =~= statements_view(statements@));
        }
        out
    }

    /// Propagates copies in a block.
    pub fn propagate_copies_in_block(&self, block: &IntermediateBlock) -> (res: IntermediateBlock)
        requires
            block_reads_end(self@, block@),
        ensures
            res@ == propagate_block(self@, block@),
        decreases block,
    {
        proof {
            lemma_block_view(*block);
        }
        let res = IntermediateBlock {
            statements: self.propagate_copies_in_statements(&block.statements),
            ret: self.propagate_copies_in_value(&block.ret),
        };
        proof {
            lemma_block_view(*block);
            lemma_block_view(res);
        }
        res
    }
}

/// Propagating a value twice gives what propagating it once gives.
pub proof fn law_propagation_idempotent(m: Map<usize, ExpressionModel>, v: ValueModel)
    requires
        chain_ends(m, v),
    ensures
        chain_ends(m, resolve(m, v)),
        resolve(m, resolve(m, v)) == resolve(m, v),
{
    lemma_resolve_is_final(m, v);
    lemma_resolve_final(m, resolve(m, v));
}

/// After propagation no statement assigns a plain value, and no statement is
/// added: the propagated statements are at most as many as the originals.
pub proof fn law_propagation_removes_copies(m: Map<usize, ExpressionModel>, st: Seq<AssignmentModel>)
    ensures
        forall|j: int| 0 <= j < propagate_statements(m, st).len() ==>
            (#[trigger] propagate_statements(m, st)[j]).expression !is Value,
        propagate_statements(m, st).len() <= st.len(),
    decreases st.len(),
{
    if st.len() > 0 {
        law_propagation_removes_copies(m, st.drop_last());
        let rest = propagate_statements(m, st.drop_last());
        let a = st.last();
        if !(a.expression is Value) {
            let e = propagate_expression(m, a.expression);
            assert(!(e is Value)) by {
                match a.expression {
                    ExpressionModel::Value(_) => {},
                    _ => {},
                }
            }
            let all = rest.push(AssignmentModel { expression: e, location: a.location });
            assert(propagate_statements(m, st) == all);
            assert forall|j: int| 0 <= j < all.len() implies (#[trigger] all[j]).expression !is Value by {
                if j < rest.len() {
                    assert(all[j] == rest[j]);
                }
            }
        }
    }
}

/// A value read after propagation is never a copy of another value.
pub proof fn law_propagated_values_are_final(m: Map<usize, ExpressionModel>, vs: Seq<ValueModel>)
    requires
        copies_end(m),
    ensures
        forall|j: int| 0 <= j < vs.len() ==> copy_step(m, #[trigger] propagate_values(m, vs)[j]) is None,
{
    assert forall|j: int| 0 <= j < vs.len() implies copy_step(m, #[trigger] propagate_values(m, vs)[j]) is None by {
        assert(chain_ends(m, vs[j]));
        lemma_resolve_is_final(m, vs[j]);
    }
}

/// Removes allocations that are wasted on copies: the same rewrite as copy
/// propagation, used when lowering a whole program.
pub struct AllocationOptimizer {
    propagator: CopyPropagator,
}

impl View for AllocationOptimizer {
    type V = Map<usize, ExpressionModel>;

    closed spec fn view(&self) -> Map<usize, ExpressionModel> {
        self.propagator@
    }
}

impl AllocationOptimizer {
    /// An optimizer that knows the given assignments.
    pub fn from_memory_map(memory_map: MemoryMap) -> (res: Self)
        ensures
            res@ == memory_view(memory_map@),
    {
        AllocationOptimizer { propagator: CopyPropagator::from_memory_map(memory_map) }
    }

    /// An optimizer that knows every assignment in the statements.
    pub fn from_statements(statements: &Vec<IntermediateStatement>) -> (res: Self)
        ensures
            res@ == register_statements(Map::empty(), statements_view(statements@)),
    {
        AllocationOptimizer { propagator: CopyPropagator::from_statements(statements) }
    }

    /// The value at the end of the chain of copies that starts at `value`.
    pub fn remove_wasted_allocations_from_value(&self, value: &IntermediateValue) -> (res: IntermediateValue)
        requires
            chain_ends(self@, value@),
        ensures
            res@ == resolve(self@, value@),
    {
        self.propagator.propagate_copies_in_value(value)
    }

    /// Reads every value of a sequence through its chain of copies.
    pub fn remove_wasted_allocations_from_values(&self, values: &Vec<IntermediateValue>) -> (res: Vec<IntermediateValue>)
        requires
            values_end(self@, values_view(values@)),
        ensures
            values_view(res@) == propagate_values(self@, values_view(values@)),
    {
        self.propagator.propagate_copies_in_values(values)
    }

    /// Reads every value of an expression through its chain of copies.
    pub fn remove_wasted_allocations_from_expression(&self, expression: &IntermediateExpression) -> (res: IntermediateExpression)
        requires
            expression_reads_end(self@, expression@),
        ensures
            res@ == propagate_expression(self@, expression@),
    {
        self.propagator.propagate_copies_in_expression(expression)
    }

    /// Drops an assignment of a plain value; otherwise rewrites its expression.
    pub fn remove_wasted_allocations_from_statement(&self, statement: &IntermediateStatement) -> (res: Option<IntermediateStatement>)
        requires
            statement@.expression is Value || expression_reads_end(self@, statement@.expression),
        ensures
            match res {
                None => statement@.expression is Value,
                Some(r) => !(statement@.expression is Value) && r@ == (AssignmentModel {
                    expression: propagate_expression(self@, statement@.expression),
                    location: statement@.location,
                }),
            },
    {
        self.propagator.propagate_copies_in_statement(statement)
    }

    /// Rewrites a sequence of statements, dropping assignments of plain values.
    pub fn remove_wasted_allocations_from_statements(&self, statements: &Vec<IntermediateStatement>) -> (res: Vec<IntermediateStatement>)
        requires
            statements_reads_end(self@, statements_view(statements@)),
        ensures
            statements_view(res@) == propagate_statements(self@, statements_view(statements@)),
    {
        self.propagator.propagate_copies_in_statements(statements)
    }

    /// Rewrites a block.
    pub fn remove_wasted_allocations_from_block(&self, block: &IntermediateBlock) -> (res: IntermediateBlock)
        requires
            block_reads_end(self@, block@),
        ensures
            res@ == propagate_block(self@, block@),
    {
        self.propagator.propagate_copies_in_block(block)
    }
}

/// Propagating values a second time changes nothing.
proof fn lemma_values_twice(m: Map<usize, ExpressionModel>, vs: Seq<ValueModel>)
    requires
        values_end(m, vs),
    ensures
        values_end(m, propagate_values(m, vs)),
        propagate_values(m, propagate_values(m, vs)) == propagate_values(m, vs),
{
    let p = propagate_values(m, vs);
    assert forall|j: int| 0 <= j < p.len() implies #[trigger] chain_ends(m, p[j]) && resolve(m, p[j]) == p[j] by {
        assert(p[j] == resolve(m, vs[j]));
        assert(chain_ends(m, vs[j]));
        law_propagation_idempotent(m, vs[j]);
    }
    assert forall|j: int| 0 <= j < p.len() implies #[trigger] propagate_values(m, p)[j] == p[j] by {
        assert(p[j] == resolve(m, vs[j]));
        assert(chain_ends(m, vs[j]));
        law_propagation_idempotent(m, vs[j]);
    }
    assert(propagate_values(m, p) =~= p);
}

/// Propagating an expression a second time changes nothing.
proof fn lemma_expression_twice(m: Map<usize, ExpressionModel>, e: ExpressionModel)
    requires
        expression_reads_end(m, e),
    ensures
        expression_reads_end(m, propagate_expression(m, e)),
        propagate_expression(m, propagate_expression(m, e)) == propagate_expression(m, e),
    decreases e,
{
    match e {
        ExpressionModel::Value(v) => law_propagation_idempotent(m, v),
        ExpressionModel::ElementAccess(v, _) => law_propagation_idempotent(m, v),
        ExpressionModel::Tuple(vs) => lemma_values_twice(m, vs),
        ExpressionModel::FnCall(f, args) => {
            law_propagation_idempotent(m, f);
            lemma_values_twice(m, args);
        },
        ExpressionModel::CtorCall(_, d, _) => match d {
            None => {},
            Some(v) => law_propagation_idempotent(m, v),
        },
        ExpressionModel::Lambda(l) => lemma_block_twice(m, l.block),
        ExpressionModel::If(c, t, f) => {
            law_propagation_idempotent(m, c);
            lemma_block_twice(m, t);
            lemma_block_twice(m, f);
        },
        ExpressionModel::Match(x, bs) => {
            law_propagation_idempotent(m, x);
            let p = propagate_expression(m, e);
            let pbs = p->Match_1;
            assert forall|i: int| 0 <= i < bs.len() implies block_reads_end(m, #[trigger] pbs[i].block)
                && propagate_block(m, pbs[i].block) == pbs[i].block by {
                lemma_block_twice(m, bs[i].block);
            }
            let q = propagate_expression(m, p);
            assert(q->Match_1 =~= pbs);
        },
    }
}

proof fn lemma_block_twice(m: Map<usize, ExpressionModel>, b: BlockModel)
    requires
        block_reads_end(m, b),
    ensures
        block_reads_end(m, propagate_block(m, b)),
        propagate_block(m, propagate_block(m, b)) == propagate_block(m, b),
    decreases b,
{
    law_propagation_idempotent(m, b.ret);
    lemma_statements_twice(m, b.statements);
}

proof fn lemma_statements_twice(m: Map<usize, ExpressionModel>, st: Seq<AssignmentModel>)
    requires
        statements_reads_end(m, st),
    ensures
        statements_reads_end(m, propagate_statements(m, st)),
        propagate_statements(m, propagate_statements(m, st)) == propagate_statements(m, st),
        forall|j: int| 0 <= j < propagate_statements(m, st).len() ==>
            (#[trigger] propagate_statements(m, st)[j]).expression !is Value,
    decreases st,
{
    law_propagation_removes_copies(m, st);
    if st.len() > 0 {
        assert(statements_reads_end(m, st.drop_last())) by {
            assert forall|i: int| 0 <= i < st.drop_last().len() implies (st.drop_last()[i].expression is Value
                || expression_reads_end(m, #[trigger] st.drop_last()[i].expression)) by {
                assert(st.drop_last()[i] == st[i]);
            }
        }
        lemma_statements_twice(m, st.drop_last());
        let rest = propagate_statements(m, st.drop_last());
        let a = st.last();
        if !(a.expression is Value) {
            assert(st[st.len() - 1] == a);
            assert(expression_reads_end(m, a.expression));
            lemma_expression_twice(m, a.expression);
            let e = propagate_expression(m, a.expression);
            let x = AssignmentModel { expression: e, location: a.location };
            let all = rest.push(x);
            assert(propagate_statements(m, st) == all);
            assert(!(e is Value)) by {
                match a.expression {
                    ExpressionModel::Value(_) => {},
                    _ => {},
                }
            }
            assert(all.drop_last() =~= rest);
            assert(all.last() == x);
            assert forall|i: int| 0 <= i < all.len() implies (all[i].expression is Value
                || expression_reads_end(m, #[trigger] all[i].expression)) by {
                if i < rest.len() {
                    assert(all[i] == rest[i]);
                }
            }
        }
    }
}

/// Propagating the copies of an expression a second time changes nothing.
pub proof fn law_expression_propagation_idempotent(m: Map<usize, ExpressionModel>, e: ExpressionModel)
    requires
        expression_reads_end(m, e),
    ensures
        propagate_expression(m, propagate_expression(m, e)) == propagate_expression(m, e),
{
    lemma_expression_twice(m, e);
}


// ---------------------------------------------------------------------------
// What propagation leaves: every read is the end of its chain.

/// Whether a value is not a copy of another value.
pub open spec fn value_final(m: Map<usize, ExpressionModel>, v: ValueModel) -> bool {
    copy_step(m, v) is None
}

/// Whether every value that an expression reads, in nested blocks too, is
/// not a copy of another value.
pub open spec fn expression_reads_final(m: Map<usize, ExpressionModel>, e: ExpressionModel) -> bool
    decreases e,
{
    match e {
        ExpressionModel::Value(v) => value_final(m, v),
        ExpressionModel::ElementAccess(v, _) => value_final(m, v),
        ExpressionModel::Tuple(vs) => forall|j: int| 0 <= j < vs.len() ==> #[trigger] value_final(m, vs[j]),
        ExpressionModel::FnCall(f, args) => value_final(m, f)
            && forall|j: int| 0 <= j < args.len() ==> #[trigger] value_final(m, args[j]),
        ExpressionModel::CtorCall(_, d, _) => match d {
            None => true,
            Some(v) => value_final(m, v),
        },
        ExpressionModel::Lambda(l) => block_reads_final(m, l.block),
        ExpressionModel::If(c, t, f) => value_final(m, c) && block_reads_final(m, t) && block_reads_final(m, f),
        ExpressionModel::Match(x, bs) => value_final(m, x)
            && forall|i: int| 0 <= i < bs.len() ==> block_reads_final(m, #[trigger] bs[i].block),
    }
}

pub open spec fn statements_reads_final(m: Map<usize, ExpressionModel>, st: Seq<AssignmentModel>) -> bool
    decreases st,
{
    forall|i: int| 0 <= i < st.len() ==> expression_reads_final(m, #[trigger] st[i].expression)
}

pub open spec fn block_reads_final(m: Map<usize, ExpressionModel>, b: BlockModel) -> bool
    decreases b,
{
    statements_reads_final(m, b.statements) && value_final(m, b.ret)
}

proof fn lemma_resolved_final(m: Map<usize, ExpressionModel>, v: ValueModel)
    requires
        chain_ends(m, v),
    ensures
        value_final(m, resolve(m, v)),
{
    lemma_resolve_is_final(m, v);
}

proof fn lemma_values_final(m: Map<usize, ExpressionModel>, vs: Seq<ValueModel>)
    requires
        values_end(m, vs),
    ensures
        forall|j: int| 0 <= j < vs.len() ==> #[trigger] value_final(m, propagate_values(m, vs)[j]),
{
    assert forall|j: int| 0 <= j < vs.len() implies #[trigger] value_final(m, propagate_values(m, vs)[j]) by {
        assert(chain_ends(m, vs[j]));
        lemma_resolve_is_final(m, vs[j]);
    }
}

proof fn lemma_expression_final(m: Map<usize, ExpressionModel>, e: ExpressionModel)
    requires
        expression_reads_end(m, e),
    ensures
        expression_reads_final(m, propagate_expression(m, e)),
    decreases e,
{
    match e {
        ExpressionModel::Value(v) => lemma_resolved_final(m, v),
        ExpressionModel::ElementAccess(v, _) => lemma_resolved_final(m, v),
        ExpressionModel::Tuple(vs) => lemma_values_final(m, vs),
        ExpressionModel::FnCall(f, args) => {
            lemma_resolved_final(m, f);
            lemma_values_final(m, args);
        },
        ExpressionModel::CtorCall(_, d, _) => match d {
            None => {},
            Some(v) => lemma_resolved_final(m, v),
        },
        ExpressionModel::Lambda(l) => lemma_block_final(m, l.block),
        ExpressionModel::If(c, t, f) => {
            lemma_resolved_final(m, c);
            lemma_block_final(m, t);
            lemma_block_final(m, f);
        },
        ExpressionModel::Match(x, bs) => {
            lemma_resolved_final(m, x);
            let pbs = propagate_expression(m, e)->Match_1;
            assert forall|i: int| 0 <= i < pbs.len() implies block_reads_final(m, #[trigger] pbs[i].block) by {
                lemma_block_final(m, bs[i].block);
            }
        },
    }
}

proof fn lemma_block_final(m: Map<usize, ExpressionModel>, b: BlockModel)
    requires
        block_reads_end(m, b),
    ensures
        block_reads_final(m, propagate_block(m, b)),
    decreases b,
{
    lemma_resolved_final(m, b.ret);
    lemma_statements_final(m, b.statements);
}

proof fn lemma_statements_final(m: Map<usize, ExpressionModel>, st: Seq<AssignmentModel>)
    requires
        statements_reads_end(m, st),
    ensures
        statements_reads_final(m, propagate_statements(m, st)),
    decreases st,
{
    if st.len() > 0 {
        assert(statements_reads_end(m, st.drop_last())) by {
            assert forall|i: int| 0 <= i < st.drop_last().len() implies (st.drop_last()[i].expression is Value
                || expression_reads_end(m, #[trigger] st.drop_last()[i].expression)) by {
                assert(st.drop_last()[i] == st[i]);
            }
        }
        lemma_statements_final(m, st.drop_last());
        let rest = propagate_statements(m, st.drop_last());
        let a = st.last();
        if !(a.expression is Value) {
            assert(st[st.len() - 1] == a);
            lemma_expression_final(m, a.expression);
            let x = AssignmentModel { expression: propagate_expression(m, a.expression), location: a.location };
            let all = rest.push(x);
            assert(propagate_statements(m, st) == all);
            assert forall|i: int| 0 <= i < all.len() implies expression_reads_final(m, #[trigger] all[i].expression) by {
                if i < rest.len() {
                    assert(all[i] == rest[i]);
                }
            }
        }
    }
}

/// After propagation every value an expression reads, an element access's
/// tuple, a call's function and arguments, the values of nested blocks and
/// what they return included, is the end of its chain of copies: no read goes
/// through a location that only copies another value.
pub proof fn law_propagated_reads_are_final(m: Map<usize, ExpressionModel>, e: ExpressionModel)
    requires
        expression_reads_end(m, e),
    ensures
        expression_reads_final(m, propagate_expression(m, e)),
{
    lemma_expression_final(m, e);
}

/// After propagating statements, every value they read is the end of its
/// chain of copies.
pub proof fn law_propagated_statements_read_final(m: Map<usize, ExpressionModel>, st: Seq<AssignmentModel>)
    requires
        statements_reads_end(m, st),
    ensures
        statements_reads_final(m, propagate_statements(m, st)),
{
    lemma_statements_final(m, st);
}


/// Whether an assignment assigns something other than a plain value.
pub open spec fn assigns_no_copy() -> spec_fn(AssignmentModel) -> bool {
    |a: AssignmentModel| !(a.expression is Value)
}

/// Propagation keeps exactly the assignments that are not plain copies, in
/// their order and at their locations, each with its expression propagated.
pub proof fn law_propagation_keeps_other_assignments(m: Map<usize, ExpressionModel>, st: Seq<AssignmentModel>)
    ensures
        propagate_statements(m, st).len() == st.filter(assigns_no_copy()).len(),
        forall|j: int| 0 <= j < propagate_statements(m, st).len() ==> #[trigger] propagate_statements(m, st)[j]
            == (AssignmentModel {
                expression: propagate_expression(m, st.filter(assigns_no_copy())[j].expression),
                location: st.filter(assigns_no_copy())[j].location,
            }),
    decreases st.len(),
{
    reveal_with_fuel(Seq::filter, 1);
    if st.len() > 0 {
        law_propagation_keeps_other_assignments(m, st.drop_last());
        let rest = propagate_statements(m, st.drop_last());
        let fr = st.drop_last().filter(assigns_no_copy());
        let a = st.last();
        if !(a.expression is Value) {
            let all = rest.push(AssignmentModel { expression: propagate_expression(m, a.expression), location: a.location });
            assert(propagate_statements(m, st) == all);
            assert(st.filter(assigns_no_copy()) == fr.push(a));
            assert forall|j: int| 0 <= j < all.len() implies #[trigger] all[j]
                == (AssignmentModel {
                    expression: propagate_expression(m, fr.push(a)[j].expression),
                    location: fr.push(a)[j].location,
                }) by {
                if j < rest.len() {
                    assert(all[j] == rest[j]);
                    assert(fr.push(a)[j] == fr[j]);
                }
            }
        } else {
            assert(st.filter(assigns_no_copy()) == fr);
        }
    }
}

} // verus!
