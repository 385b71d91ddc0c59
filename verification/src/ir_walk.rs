//! Traversals of intermediate code: the locations assigned to, the values used,
//! the open variables of lambdas, and renaming of locations.

use vstd::prelude::*;
use crate::intermediate::{
    branches_view, lemma_block_view, lemma_match_view, statements_view, values_view,
    IntermediateBlock, IntermediateExpression, IntermediateLambda, IntermediateMatchBranch,
    IntermediateStatement, Location,
};
use crate::intermediate::{option_arg_view, IntermediateArg, IntermediateValue};
use crate::ir_clone::clone_values;
use crate::ir_model::{
    block_targets, block_values, branches_targets, branches_values, contains_same,
    expression_targets, expression_values, is_bound, is_branch_target, not_branch_target,
    open_in, open_vars, same_value, statement_targets, statements_targets, statements_values,
    unique_values, value_location,
};
use crate::ir_ops::locations_view;

verus! {

proof fn lemma_locations_view_add(a: Seq<Location>, b: Seq<Location>)
    ensures
        locations_view(a + b) == locations_view(a) + locations_view(b),
{
    assert(locations_view(a + b) =~= locations_view(a) + locations_view(b));
}

impl IntermediateExpression {
    /// The locations assigned to inside an expression (by the statements of
    /// nested blocks), in order.
    pub fn targets(&self) -> (res: Vec<Location>)
        ensures
            locations_view(res@) == expression_targets(self@),
        decreases self,
    {
        match self {
            IntermediateExpression::IntermediateLambda(l) => l.block.targets(),
            IntermediateExpression::IntermediateIf(i) => {
                let mut t = i.branches.0.targets();
                let mut f = i.branches.1.targets();
                let ghost t0 = t@;
                let ghost f0 = f@;
                t.append(&mut f);
                proof {
                    lemma_locations_view_add(t0, f0);
                }
                t
            },
            IntermediateExpression::IntermediateMatch(m) => {
                proof {
                    lemma_match_view(*m);
                }
                branch_targets(&m.branches)
            },
            _ => Vec::new(),
        }
    }
}

/// The locations assigned to inside the blocks of match branches, in order.
fn branch_targets(branches: &Vec<IntermediateMatchBranch>) -> (res: Vec<Location>)
    ensures
        locations_view(res@) == branches_targets(branches_view(branches@)),
    decreases branches,
{
    let mut out: Vec<Location> = Vec::new();
    let mut i: usize = 0;
    while i < branches.len()
        invariant
            i <= branches.len(),
            locations_view(out@) == branches_targets(branches_view(branches@).take(i as int)),
        decreases branches.len() - i,
    {
        let mut t = branches[i].block.targets();
        let ghost o0 = out@;
        let ghost t0 = t@;
        out.append(&mut t);
        proof {
            lemma_locations_view_add(o0, t0);
            let bs = branches_view(branches@);
            assert(bs.take(i + 1).drop_last() =~= bs.take(i as int));
        }
        i = i + 1;
    }
    proof {
        assert(branches_view(branches@).take(branches.len() as int) =~= branches_view(branches@));
    }
    out
}

impl IntermediateBlock {
    /// The locations assigned to by the statements of a block, in order.
    pub fn targets(&self) -> (res: Vec<Location>)
        ensures
            locations_view(res@) == block_targets(self@),
        decreases self,
    {
        proof {
            lemma_block_view(*self);
        }
        IntermediateStatement::all_targets(&self.statements)
    }
}

impl IntermediateStatement {
    /// The locations assigned to by a statement: those inside its expression,
    /// then its own target.
    pub fn targets(&self) -> (res: Vec<Location>)
        ensures
            locations_view(res@) == statement_targets(self@),
        decreases self,
    {
        match self {
            IntermediateStatement::IntermediateAssignment(a) => {
                let mut t = a.expression.targets();
                t.push(a.location);
                proof {
                    assert(locations_view(t@) =~= expression_targets(a.expression@).push(a.location.0));
                }
                t
            },
        }
    }

    /// The locations assigned to by a sequence of statements, in order.
    pub fn all_targets(statements: &Vec<IntermediateStatement>) -> (res: Vec<Location>)
        ensures
            locations_view(res@) == statements_targets(statements_view(statements@)),
        decreases statements,
    {
        let mut out: Vec<Location> = Vec::new();
        let mut i: usize = 0;
        while i < statements.len()
            invariant
                i <= statements.len(),
                locations_view(out@) == statements_targets(statements_view(statements@).take(i as int)),
            decreases statements.len() - i,
        {
            let mut t = statements[i].targets();
            let ghost o0 = out@;
            let ghost t0 = t@;
            out.append(&mut t);
            proof {
                lemma_locations_view_add(o0, t0);
                let ss = statements_view(statements@);
                assert(ss.take(i + 1).drop_last() =~= ss.take(i as int));
            }
            i = i + 1;
        }
        proof {
            assert(statements_view(statements@).take(statements.len() as int) =~= statements_view(statements@));
        }
        out
    }
}

proof fn lemma_values_view_add(a: Seq<IntermediateValue>, b: Seq<IntermediateValue>)
    ensures
        values_view(a + b) == values_view(a) + values_view(b),
{
    assert(values_view(a + b) =~= values_view(a) + values_view(b));
}

impl IntermediateExpression {
    /// The values an expression uses, in order. For a lambda these are its open
    /// variables; for a match, a branch's own bound argument is left out.
    pub fn values(&self) -> (res: Vec<IntermediateValue>)
        ensures
            values_view(res@) == expression_values(self@),
        decreases self,
    {
        match self {
            IntermediateExpression::IntermediateValue(v) => {
                let res = vec![v.clone()];
                proof {
                    assert(values_view(res@) =~= seq![v@]);
                }
                res
            },
            IntermediateExpression::IntermediateElementAccess(e) => {
                let res = vec![e.value.clone()];
                proof {
                    assert(values_view(res@) =~= seq![e.value@]);
                }
                res
            },
            IntermediateExpression::IntermediateTupleExpression(t) => clone_values(&t.0),
            IntermediateExpression::IntermediateFnCall(f) => {
                let mut res = clone_values(&f.args);
                res.push(f.fn_.clone());
                proof {
                    assert(values_view(res@) =~= values_view(f.args@).push(f.fn_@));
                }
                res
            },
            IntermediateExpression::IntermediateCtorCall(c) => match &c.data {
                None => {
                    let res: Vec<IntermediateValue> = Vec::new();
                    proof {
                        assert(values_view(res@) =~= Seq::empty());
                    }
                    res
                },
                Some(v) => {
                    let res = vec![v.clone()];
                    proof {
                        assert(values_view(res@) =~= seq![v@]);
                    }
                    res
                },
            },
            IntermediateExpression::IntermediateLambda(l) => l.find_open_vars(),
            IntermediateExpression::IntermediateIf(i) => {
                let mut res = i.branches.0.values();
                let mut f = i.branches.1.values();
                let ghost r0 = res@;
                let ghost f0 = f@;
                res.append(&mut f);
                proof {
                    lemma_values_view_add(r0, f0);
                }
                res.push(i.condition.clone());
                proof {
                    assert(values_view(res@) =~= values_view(r0 + f0).push(i.condition@));
                }
                res
            },
            IntermediateExpression::IntermediateMatch(m) => {
                proof {
                    lemma_match_view(*m);
                }
                let mut res = branch_values(&m.branches);
                let ghost r0 = res@;
                res.push(m.subject.clone());
                proof {
                    assert(values_view(res@) =~= values_view(r0).push(m.subject@));
                }
                res
            },
        }
    }
}

/// The values of a branch's block other than the argument the branch binds.
fn without_branch_target(values: &Vec<IntermediateValue>, target: &Option<IntermediateArg>) -> (res: Vec<IntermediateValue>)
    ensures
        values_view(res@) == values_view(values@).filter(not_branch_target(option_arg_view(*target))),
{
    let ghost pred = not_branch_target(option_arg_view(*target));
    let mut out: Vec<IntermediateValue> = Vec::new();
    let mut i: usize = 0;
    while i < values.len()
        invariant
            i <= values.len(),
            pred == not_branch_target(option_arg_view(*target)),
            values_view(out@) == values_view(values@).take(i as int).filter(pred),
        decreases values.len() - i,
    {
        let is_target = match (&values[i], target) {
            (IntermediateValue::IntermediateArg(a), Some(t)) => a.location.0 == t.location.0,
            _ => false,
        };
        let ghost o0 = out@;
        if !is_target {
            out.push(values[i].clone());
        }
        proof {
            let vs = values_view(values@);
            assert(vs.take(i + 1) =~= vs.take(i as int).push(vs[i as int]));
            vs.take(i as int).lemma_filter_push(vs[i as int], pred);
            assert(is_target == is_branch_target(vs[i as int], option_arg_view(*target)));
            if !is_target {
                assert(values_view(out@) =~= values_view(o0).push(vs[i as int]));
            }
        }
        i = i + 1;
    }
    proof {
        assert(values_view(values@).take(values.len() as int) =~= values_view(values@));
    }
    out
}

/// The values used by the blocks of match branches, in order, each block without
/// its branch's bound argument.
fn branch_values(branches: &Vec<IntermediateMatchBranch>) -> (res: Vec<IntermediateValue>)
    ensures
        values_view(res@) == branches_values(branches_view(branches@)),
    decreases branches,
{
    let mut out: Vec<IntermediateValue> = Vec::new();
    let mut i: usize = 0;
    while i < branches.len()
        invariant
            i <= branches.len(),
            values_view(out@) == branches_values(branches_view(branches@).take(i as int)),
        decreases branches.len() - i,
    {
        let bv = branches[i].block.values();
        let mut t = without_branch_target(&bv, &branches[i].target);
        let ghost o0 = out@;
        let ghost t0 = t@;
        out.append(&mut t);
        proof {
            lemma_values_view_add(o0, t0);
            let bs = branches_view(branches@);
            assert(bs.take(i + 1).drop_last() =~= bs.take(i as int));
        }
        i = i + 1;
    }
    proof {
        assert(branches_view(branches@).take(branches.len() as int) =~= branches_view(branches@));
    }
    out
}

impl IntermediateBlock {
    /// The values used by a block: those of its statements, then its returned value.
    pub fn values(&self) -> (res: Vec<IntermediateValue>)
        ensures
            values_view(res@) == block_values(self@),
        decreases self,
    {
        proof {
            lemma_block_view(*self);
        }
        let mut res = IntermediateStatement::all_values(&self.statements);
        let ghost r0 = res@;
        res.push(self.ret.clone());
        proof {
            assert(values_view(res@) =~= values_view(r0).push(self.ret@));
        }
        res
    }
}

impl IntermediateStatement {
    /// The values used by a statement.
    pub fn values(&self) -> (res: Vec<IntermediateValue>)
        ensures
            values_view(res@) == expression_values(self@.expression),
        decreases self,
    {
        match self {
            IntermediateStatement::IntermediateAssignment(a) => a.expression.values(),
        }
    }

    /// The values used by a sequence of statements, in order.
    pub fn all_values(statements: &Vec<IntermediateStatement>) -> (res: Vec<IntermediateValue>)
        ensures
            values_view(res@) == statements_values(statements_view(statements@)),
        decreases statements,
    {
        let mut out: Vec<IntermediateValue> = Vec::new();
        let mut i: usize = 0;
        while i < statements.len()
            invariant
                i <= statements.len(),
                values_view(out@) == statements_values(statements_view(statements@).take(i as int)),
            decreases statements.len() - i,
        {
            let mut t = statements[i].values();
            let ghost o0 = out@;
            let ghost t0 = t@;
            out.append(&mut t);
            proof {
                lemma_values_view_add(o0, t0);
                let ss = statements_view(statements@);
                assert(ss.take(i + 1).drop_last() =~= ss.take(i as int));
            }
            i = i + 1;
        }
        proof {
            assert(statements_view(statements@).take(statements.len() as int) =~= statements_view(statements@));
        }
        out
    }
}

/// Whether two values denote the same value, for a first value that has a location.
fn same_slot(a: &IntermediateValue, b: &IntermediateValue) -> (res: bool)
    ensures
        value_location(a@) is Some ==> res == same_value(a@, b@),
{
    match (a, b) {
        (IntermediateValue::IntermediateMemory(x), IntermediateValue::IntermediateMemory(y)) => x.location.0 == y.location.0,
        (IntermediateValue::IntermediateArg(x), IntermediateValue::IntermediateArg(y)) => x.location.0 == y.location.0,
        _ => false,
    }
}

impl IntermediateLambda {
    /// Whether a location is bound by the lambda, given the targets of its body.
    fn binds(&self, targets: &Vec<Location>, location: usize) -> (res: bool)
        requires
            locations_view(targets@) == block_targets(self@.block),
        ensures
            res == is_bound(self@, location),
    {
        let mut i: usize = 0;
        while i < targets.len()
            invariant
                i <= targets.len(),
                locations_view(targets@) == block_targets(self@.block),
                forall|j: int| 0 <= j < i ==> targets@[j].0 != location,
            decreases targets.len() - i,
        {
            if targets[i].0 == location {
                proof {
                    assert(locations_view(targets@)[i as int] == location);
                    assert(locations_view(targets@).contains(location));
                }
                return true;
            }
            i = i + 1;
        }
        proof {
            assert(!locations_view(targets@).contains(location));
        }
        let mut k: usize = 0;
        while k < self.args.len()
            invariant
                k <= self.args.len(),
                forall|j: int| 0 <= j < k ==> self.args@[j].location.0 != location,
            decreases self.args.len() - k,
        {
            if self.args[k].location.0 == location {
                proof {
                    assert(self@.args[k as int].location == location);
                }
                return true;
            }
            k = k + 1;
        }
        false
    }

    /// The open variables of a lambda: the values its body uses at locations that
    /// the lambda neither takes as arguments nor assigns to, each once, in order of
    /// first use.
    pub fn find_open_vars(&self) -> (res: Vec<IntermediateValue>)
        ensures
            values_view(res@) == open_vars(self@),
        decreases self,
    {
        let targets = self.block.targets();
        let values = self.block.values();
        let ghost pred = open_in(self@);
        let ghost vs = values_view(values@);
        let mut open: Vec<IntermediateValue> = Vec::new();
        let mut i: usize = 0;
        while i < values.len()
            invariant
                i <= values.len(),
                pred == open_in(self@),
                vs == values_view(values@),
                locations_view(targets@) == block_targets(self@.block),
                values_view(open@) == vs.take(i as int).filter(pred),
            decreases values.len() - i,
        {
            let ghost o0 = open@;
            let keep = match values[i].location() {
                None => false,
                Some(l) => !self.binds(&targets, l.0),
            };
            if keep {
                open.push(values[i].clone());
            }
            proof {
                assert(vs.take(i + 1) =~= vs.take(i as int).push(vs[i as int]));
                vs.take(i as int).lemma_filter_push(vs[i as int], pred);
                if keep {
                    assert(values_view(open@) =~= values_view(o0).push(vs[i as int]));
                }
            }
            i = i + 1;
        }
        proof {
            assert(vs.take(values.len() as int) =~= vs);
            assert forall|j: int| 0 <= j < open@.len() implies value_location(#[trigger] open@[j]@) is Some by {
                assert(values_view(open@)[j] == open@[j]@);
                assert(vs.filter(pred).contains(open@[j]@));
            }
        }
        let ghost os = values_view(open@);
        let mut out: Vec<IntermediateValue> = Vec::new();
        let mut k: usize = 0;
        while k < open.len()
            invariant
                k <= open.len(),
                os == values_view(open@),
                forall|j: int| 0 <= j < open@.len() ==> value_location(#[trigger] open@[j]@) is Some,
                values_view(out@) == unique_values(os.take(k as int)),
            decreases open.len() - k,
        {
            let mut found = false;
            let mut m: usize = 0;
            while m < out.len()
                invariant
                    m <= out.len(),
                    k < open.len(),
                    value_location(open@[k as int]@) is Some,
                    found == exists|j: int| 0 <= j < m && same_value(#[trigger] out@[j]@, open@[k as int]@),
                decreases out.len() - m,
            {
                if same_slot(&open[k], &out[m]) {
                    found = true;
                }
                m = m + 1;
            }
            let ghost o0 = out@;
            proof {
                assert(os.take(k + 1).drop_last() =~= os.take(k as int));
                assert(found == contains_same(values_view(o0), os[k as int])) by {
                    if found {
                        let j = choose|j: int| 0 <= j < out@.len() && same_value(#[trigger] out@[j]@, open@[k as int]@);
                        assert(values_view(o0)[j] == o0[j]@);
                    }
                    if contains_same(values_view(o0), os[k as int]) {
                        let j = choose|j: int| 0 <= j < values_view(o0).len() && same_value(#[trigger] values_view(o0)[j], os[k as int]);
                        assert(same_value(o0[j]@, open@[k as int]@));
                    }
                }
            }
            if !found {
                out.push(open[k].clone());
                proof {
                    assert(values_view(out@) =~= values_view(o0).push(os[k as int]));
                }
            }
            k = k + 1;
        }
        proof {
            assert(os.take(open.len() as int) =~= os);
        }
        out
    }
}

} // verus!
