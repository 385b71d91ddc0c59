//! Which lambdas of a program may call themselves: a lambda counts as
//! recursive unless every function it calls is a built-in function or a
//! lambda that does not count as recursive.

use vstd::prelude::*;
use std::collections::HashMap;
use crate::compiler::{brsize, bsize, esize, stsize};
use crate::fn_inst::{
    collect_branches, collect_statement, collect_statements, fn_defs_view, follow_ref, lemma_follow_ref_succ,
    lemma_ref_root, ref_ends, ref_length, ref_root, ref_step, root_fn, FnDefs, FnInst, FnInstModel,
};
use crate::intermediate::{
    branches_view, statements_view, IntermediateExpression, IntermediateProgram, IntermediateStatement,
    IntermediateValue, Location,
};
use crate::ir_model::{
    block_targets, branches_targets, expression_targets, statement_targets, statements_targets, AssignmentModel,
    BranchModel, ExpressionModel, ValueModel,
};

verus! {

broadcast use vstd::std_specs::hash::group_hash_axioms;

/// Whether the lambda at each location, by its number, counts as recursive.
pub type RecursiveFns = HashMap<usize, bool>;

/// The statements of the lambda at a location.
pub open spec fn body_of(defs: Map<usize, FnInstModel>, r: usize) -> Seq<AssignmentModel> {
    defs[r]->Lambda_0.block.statements
}

/// Whether calling a value is known not to recurse: it is a built-in
/// function, or a location whose function is a built-in function or a lambda
/// marked as not recursive, of a rank below the bound.
pub open spec fn call_safe(defs: Map<usize, FnInstModel>, marks: Map<usize, bool>, rank: Map<usize, nat>, bound: nat, f: ValueModel) -> bool {
    match f {
        ValueModel::BuiltIn(_) => true,
        ValueModel::Memory(s) => match root_fn(defs, s.location) {
            Some(FnInstModel::Lambda(_)) => marks.contains_key(ref_root(defs, s.location)) && !marks[ref_root(defs, s.location)]
                && rank.contains_key(ref_root(defs, s.location)) && rank[ref_root(defs, s.location)] < bound,
            Some(FnInstModel::BuiltIn(_)) => true,
            _ => false,
        },
        ValueModel::Arg(_) => false,
    }
}

/// Whether every call that a statement makes, in its branches too, is known not to recurse.
pub open spec fn statement_safe(defs: Map<usize, FnInstModel>, marks: Map<usize, bool>, rank: Map<usize, nat>, bound: nat, a: AssignmentModel) -> bool
    decreases 1 + esize(a.expression), 0nat,
{
    match a.expression {
        ExpressionModel::FnCall(f, _) => call_safe(defs, marks, rank, bound, f),
        ExpressionModel::If(_, t, f) => statements_safe(defs, marks, rank, bound, t.statements) && statements_safe(defs, marks, rank, bound, f.statements),
        ExpressionModel::Match(_, bs) => branches_safe(defs, marks, rank, bound, bs),
        _ => true,
    }
}

pub open spec fn statements_safe(defs: Map<usize, FnInstModel>, marks: Map<usize, bool>, rank: Map<usize, nat>, bound: nat, st: Seq<AssignmentModel>) -> bool
    decreases stsize(st), 1nat,
{
    if st.len() == 0 {
        true
    } else {
        statements_safe(defs, marks, rank, bound, st.drop_last()) && statement_safe(defs, marks, rank, bound, st.last())
    }
}

pub open spec fn branches_safe(defs: Map<usize, FnInstModel>, marks: Map<usize, bool>, rank: Map<usize, nat>, bound: nat, bs: Seq<BranchModel>) -> bool
    decreases brsize(bs), 1nat,
{
    if bs.len() == 0 {
        true
    } else {
        proof {
            assert(bsize(bs.last().block) == 1 + stsize(bs.last().block.statements));
        }
        branches_safe(defs, marks, rank, bound, bs.drop_last()) && statements_safe(defs, marks, rank, bound, bs.last().block.statements)
    }
}

/// Whether marks are justified by ranks: each marked location holds a lambda,
/// and a lambda marked as not recursive has a rank and only makes calls known
/// not to recurse, to lambdas of lower rank. So no chain of such calls leads
/// from a lambda marked as not recursive back to itself.
pub open spec fn marks_sound(defs: Map<usize, FnInstModel>, marks: Map<usize, bool>, rank: Map<usize, nat>) -> bool {
    &&& forall|r: usize| #[trigger] marks.contains_key(r) ==> defs.contains_key(r) && defs[r] is Lambda
        && (!marks[r] ==> rank.contains_key(r) && statements_safe(defs, marks, rank, rank[r], body_of(defs, r)))
    &&& forall|r: usize| #[trigger] rank.contains_key(r) ==> marks.contains_key(r) && !marks[r] && rank[r] < rank.dom().len()
    &&& rank.dom().finite()
}

/// Whether the second ranks keep every rank of the first.
pub open spec fn ranks_extend(r1: Map<usize, nat>, r2: Map<usize, nat>) -> bool {
    forall|r: usize| #[trigger] r1.contains_key(r) ==> r2.contains_key(r) && r2[r] == r1[r]
}

/// Whether the second marks keep every mark of the first.
pub open spec fn extends(m1: Map<usize, bool>, m2: Map<usize, bool>) -> bool {
    forall|r: usize| #[trigger] m1.contains_key(r) ==> m2.contains_key(r) && m2[r] == m1[r]
}

/// Whether every location marked as not recursive stays so.
pub open spec fn keeps_safe(m1: Map<usize, bool>, m2: Map<usize, bool>) -> bool {
    forall|r: usize| #[trigger] m1.contains_key(r) && !m1[r] ==> m2.contains_key(r) && !m2[r]
}

/// The number of locations not marked yet.
pub open spec fn unmarked(defs: Map<usize, FnInstModel>, marks: Map<usize, bool>) -> nat {
    defs.dom().difference(marks.dom()).len()
}

// ---------------------------------------------------------------------------
// Facts about marks.

proof fn lemma_statement_safe_mono(
    defs: Map<usize, FnInstModel>,
    m1: Map<usize, bool>,
    m2: Map<usize, bool>,
    r1: Map<usize, nat>,
    r2: Map<usize, nat>,
    b1: nat,
    b2: nat,
    a: AssignmentModel,
)
    requires
        statement_safe(defs, m1, r1, b1, a),
        keeps_safe(m1, m2),
        ranks_extend(r1, r2),
        b1 <= b2,
    ensures
        statement_safe(defs, m2, r2, b2, a),
    decreases 1 + esize(a.expression), 0nat,
{
    match a.expression {
        ExpressionModel::FnCall(f, _) => {
            if let ValueModel::Memory(s) = f {
                let r = ref_root(defs, s.location);
                if m1.contains_key(r) {
                    assert(m1.contains_key(r) && !m1[r] ==> m2.contains_key(r) && !m2[r]);
                }
                if r1.contains_key(r) {
                    assert(r2.contains_key(r) && r2[r] == r1[r]);
                }
            }
        },
        ExpressionModel::If(_, t, f) => {
            lemma_statements_safe_mono(defs, m1, m2, r1, r2, b1, b2, t.statements);
            lemma_statements_safe_mono(defs, m1, m2, r1, r2, b1, b2, f.statements);
        },
        ExpressionModel::Match(_, bs) => {
            lemma_branches_safe_mono(defs, m1, m2, r1, r2, b1, b2, bs);
        },
        _ => {},
    }
}

proof fn lemma_statements_safe_mono(
    defs: Map<usize, FnInstModel>,
    m1: Map<usize, bool>,
    m2: Map<usize, bool>,
    r1: Map<usize, nat>,
    r2: Map<usize, nat>,
    b1: nat,
    b2: nat,
    st: Seq<AssignmentModel>,
)
    requires
        statements_safe(defs, m1, r1, b1, st),
        keeps_safe(m1, m2),
        ranks_extend(r1, r2),
        b1 <= b2,
    ensures
        statements_safe(defs, m2, r2, b2, st),
    decreases stsize(st), 1nat,
{
    if st.len() > 0 {
        lemma_statements_safe_mono(defs, m1, m2, r1, r2, b1, b2, st.drop_last());
        lemma_statement_safe_mono(defs, m1, m2, r1, r2, b1, b2, st.last());
    }
}

proof fn lemma_branches_safe_mono(
    defs: Map<usize, FnInstModel>,
    m1: Map<usize, bool>,
    m2: Map<usize, bool>,
    r1: Map<usize, nat>,
    r2: Map<usize, nat>,
    b1: nat,
    b2: nat,
    bs: Seq<BranchModel>,
)
    requires
        branches_safe(defs, m1, r1, b1, bs),
        keeps_safe(m1, m2),
        ranks_extend(r1, r2),
        b1 <= b2,
    ensures
        branches_safe(defs, m2, r2, b2, bs),
    decreases brsize(bs), 1nat,
{
    if bs.len() > 0 {
        assert(bsize(bs.last().block) == 1 + stsize(bs.last().block.statements));
        lemma_branches_safe_mono(defs, m1, m2, r1, r2, b1, b2, bs.drop_last());
        lemma_statements_safe_mono(defs, m1, m2, r1, r2, b1, b2, bs.last().block.statements);
    }
}

/// Each statement of safe statements is safe.
proof fn lemma_statements_safe_index(
    defs: Map<usize, FnInstModel>,
    marks: Map<usize, bool>,
    rank: Map<usize, nat>,
    bound: nat,
    st: Seq<AssignmentModel>,
    i: int,
)
    requires
        statements_safe(defs, marks, rank, bound, st),
        0 <= i < st.len(),
    ensures
        statement_safe(defs, marks, rank, bound, st[i]),
    decreases st.len(),
{
    if i < st.len() - 1 {
        lemma_statements_safe_index(defs, marks, rank, bound, st.drop_last(), i);
    }
}

/// A lambda marked as not recursive makes no call of its own location among
/// its statements.
pub proof fn law_no_direct_self_call(
    defs: Map<usize, FnInstModel>,
    marks: Map<usize, bool>,
    rank: Map<usize, nat>,
    r: usize,
    i: int,
)
    requires
        marks_sound(defs, marks, rank),
        marks.contains_key(r),
        !marks[r],
        0 <= i < body_of(defs, r).len(),
    ensures
        !(body_of(defs, r)[i].expression matches ExpressionModel::FnCall(ValueModel::Memory(s), _)
            && ref_root(defs, s.location) == r),
{
    lemma_statements_safe_index(defs, marks, rank, rank[r], body_of(defs, r), i);
}

/// Ranks that grow in two steps grow.
proof fn lemma_ranks_trans(r0: Map<usize, nat>, r1: Map<usize, nat>, r2: Map<usize, nat>)
    requires
        ranks_extend(r0, r1),
        ranks_extend(r1, r2),
    ensures
        ranks_extend(r0, r2),
{
    assert forall|r: usize| #[trigger] r0.contains_key(r) implies r2.contains_key(r) && r2[r] == r0[r] by {
        assert(r1.contains_key(r));
    }
}

/// Marking a new location leaves fewer locations unmarked.
proof fn lemma_unmarked_insert(defs: Map<usize, FnInstModel>, marks: Map<usize, bool>, r: usize, b: bool)
    requires
        defs.dom().finite(),
        defs.contains_key(r),
        !marks.contains_key(r),
    ensures
        unmarked(defs, marks.insert(r, b)) < unmarked(defs, marks),
{
    let d1 = defs.dom().difference(marks.dom());
    let d2 = defs.dom().difference(marks.insert(r, b).dom());
    assert(d2 =~= d1.remove(r));
    assert(d1.contains(r));
}

/// Marks that grow leave no more locations unmarked.
proof fn lemma_unmarked_mono(defs: Map<usize, FnInstModel>, m1: Map<usize, bool>, m2: Map<usize, bool>)
    requires
        defs.dom().finite(),
        forall|r: usize| #[trigger] m1.contains_key(r) ==> m2.contains_key(r),
    ensures
        unmarked(defs, m2) <= unmarked(defs, m1),
{
    let d1 = defs.dom().difference(m1.dom());
    let d2 = defs.dom().difference(m2.dom());
    assert(d2.subset_of(d1));
    vstd::set_lib::lemma_len_subset(d2, d1);
}

/// The root of a chain of copies holds no copy.
proof fn lemma_root_not_ref(defs: Map<usize, FnInstModel>, r: usize)
    requires
        ref_ends(defs, r),
    ensures
        !(root_fn(defs, r) matches Some(FnInstModel::Ref(_))),
{
    let n = ref_length(defs, r);
    lemma_ref_root(defs, r, n);
}

// ---------------------------------------------------------------------------
// Where the functions of a program come from.

/// Every location that collecting records is an assignment's location.
proof fn lemma_collect_statement_dom(m: Map<usize, FnInstModel>, a: AssignmentModel, k: usize)
    requires
        collect_statement(m, a).contains_key(k),
    ensures
        m.contains_key(k) || statement_targets(a).contains(k),
    decreases 1 + esize(a.expression), 0nat,
{
    let ts = statement_targets(a);
    assert(ts.last() == a.location);
    match a.expression {
        ExpressionModel::Lambda(l) => {
            lemma_collect_statements_dom(m.insert(a.location, FnInstModel::Lambda(l)), l.block.statements, k);
            if statements_targets(l.block.statements).contains(k) {
                let t = choose|t: int| 0 <= t < statements_targets(l.block.statements).len() && statements_targets(l.block.statements)[t] == k;
                assert(ts[t] == k);
            }
        },
        ExpressionModel::If(_, t, f) => {
            lemma_collect_statements_dom(collect_statements(m, t.statements), f.statements, k);
            if collect_statements(m, t.statements).contains_key(k) {
                lemma_collect_statements_dom(m, t.statements, k);
            }
            let bt = block_targets(t);
            let bf = block_targets(f);
            if bt.contains(k) {
                let u = choose|u: int| 0 <= u < bt.len() && bt[u] == k;
                assert(ts[u] == k);
            }
            if bf.contains(k) {
                let u = choose|u: int| 0 <= u < bf.len() && bf[u] == k;
                assert(ts[bt.len() + u] == k);
            }
        },
        ExpressionModel::Match(_, bs) => {
            lemma_collect_branches_dom(m, bs, k);
            if branches_targets(bs).contains(k) {
                let u = choose|u: int| 0 <= u < branches_targets(bs).len() && branches_targets(bs)[u] == k;
                assert(ts[u] == k);
            }
        },
        _ => {},
    }
}

proof fn lemma_collect_statements_dom(m: Map<usize, FnInstModel>, st: Seq<AssignmentModel>, k: usize)
    requires
        collect_statements(m, st).contains_key(k),
    ensures
        m.contains_key(k) || statements_targets(st).contains(k),
    decreases stsize(st), 1nat,
{
    if st.len() > 0 {
        let prev = collect_statements(m, st.drop_last());
        lemma_collect_statement_dom(prev, st.last(), k);
        let a = statements_targets(st.drop_last());
        let b = statement_targets(st.last());
        if prev.contains_key(k) {
            lemma_collect_statements_dom(m, st.drop_last(), k);
            if a.contains(k) {
                let u = choose|u: int| 0 <= u < a.len() && a[u] == k;
                assert(statements_targets(st)[u] == k);
            }
        }
        if b.contains(k) {
            let u = choose|u: int| 0 <= u < b.len() && b[u] == k;
            assert(statements_targets(st)[a.len() + u] == k);
        }
    }
}

proof fn lemma_collect_branches_dom(m: Map<usize, FnInstModel>, bs: Seq<BranchModel>, k: usize)
    requires
        collect_branches(m, bs).contains_key(k),
    ensures
        m.contains_key(k) || branches_targets(bs).contains(k),
    decreases brsize(bs), 1nat,
{
    if bs.len() > 0 {
        assert(bsize(bs.last().block) == 1 + stsize(bs.last().block.statements));
        let prev = collect_branches(m, bs.drop_last());
        lemma_collect_statements_dom(prev, bs.last().block.statements, k);
        let a = branches_targets(bs.drop_last());
        let b = block_targets(bs.last().block);
        if prev.contains_key(k) {
            lemma_collect_branches_dom(m, bs.drop_last(), k);
            if a.contains(k) {
                let u = choose|u: int| 0 <= u < a.len() && a[u] == k;
                assert(branches_targets(bs)[u] == k);
            }
        }
        if b.contains(k) {
            let u = choose|u: int| 0 <= u < b.len() && b[u] == k;
            assert(branches_targets(bs)[a.len() + u] == k);
        }
    }
}

// ---------------------------------------------------------------------------
// Calls between lambdas, and which lambdas may recurse.

/// Whether a statement, in its branches too, calls the function value `f`.
pub open spec fn statement_calls(a: AssignmentModel, f: ValueModel) -> bool
    decreases 1 + esize(a.expression), 0nat,
{
    match a.expression {
        ExpressionModel::FnCall(g, _) => g == f,
        ExpressionModel::If(_, t, e) => statements_calls(t.statements, f) || statements_calls(e.statements, f),
        ExpressionModel::Match(_, bs) => branches_calls(bs, f),
        _ => false,
    }
}

pub open spec fn statements_calls(st: Seq<AssignmentModel>, f: ValueModel) -> bool
    decreases stsize(st), 1nat,
{
    if st.len() == 0 {
        false
    } else {
        statements_calls(st.drop_last(), f) || statement_calls(st.last(), f)
    }
}

pub open spec fn branches_calls(bs: Seq<BranchModel>, f: ValueModel) -> bool
    decreases brsize(bs), 1nat,
{
    if bs.len() == 0 {
        false
    } else {
        proof {
            assert(bsize(bs.last().block) == 1 + stsize(bs.last().block.statements));
        }
        branches_calls(bs.drop_last(), f) || statements_calls(bs.last().block.statements, f)
    }
}

/// Whether calling `f` calls the lambda at location `t`.
pub open spec fn lambda_call(defs: Map<usize, FnInstModel>, f: ValueModel, t: usize) -> bool {
    &&& f matches ValueModel::Memory(s)
    &&& root_fn(defs, s.location) matches Some(FnInstModel::Lambda(_))
    &&& ref_root(defs, s.location) == t
}

/// Whether calling `f` calls a function that is not known: an argument, or a
/// location that holds neither a lambda nor a built-in function.
pub open spec fn unknown_call(defs: Map<usize, FnInstModel>, f: ValueModel) -> bool {
    match f {
        ValueModel::BuiltIn(_) => false,
        ValueModel::Memory(s) => !(root_fn(defs, s.location) matches Some(FnInstModel::Lambda(_)))
            && !(root_fn(defs, s.location) matches Some(FnInstModel::BuiltIn(_))),
        ValueModel::Arg(_) => true,
    }
}

/// Whether the body of the lambda at `r` calls the lambda at `t`.
pub open spec fn calls(defs: Map<usize, FnInstModel>, r: usize, t: usize) -> bool {
    exists|f: ValueModel| #[trigger] statements_calls(body_of(defs, r), f) && lambda_call(defs, f, t)
}

/// Whether the body of the lambda at `r` calls a function that is not known.
pub open spec fn calls_unknown(defs: Map<usize, FnInstModel>, r: usize) -> bool {
    exists|f: ValueModel| #[trigger] statements_calls(body_of(defs, r), f) && unknown_call(defs, f)
}

/// Whether a chain of `n` calls leads from the lambda at `r` to the lambda at `t`.
pub open spec fn reaches(defs: Map<usize, FnInstModel>, r: usize, t: usize, n: nat) -> bool
    decreases n,
{
    if n == 0 {
        r == t
    } else {
        exists|u: usize| #[trigger] calls(defs, r, u) && reaches(defs, u, t, (n - 1) as nat)
    }
}

/// Whether the lambda at `r` may recurse: a chain of calls leads from it to a
/// lambda that calls a function that is not known, or to a lambda from which a
/// chain of calls leads back to it.
#[verifier::opaque]
pub open spec fn may_recurse(defs: Map<usize, FnInstModel>, r: usize) -> bool {
    exists|t: usize, n: nat| #[trigger] reaches(defs, r, t, n)
        && (calls_unknown(defs, t) || exists|m: nat| m > 0 && #[trigger] reaches(defs, t, t, m))
}

/// Chains of calls compose.
proof fn lemma_reaches_trans(defs: Map<usize, FnInstModel>, a: usize, b: usize, c: usize, n: nat, m: nat)
    requires
        reaches(defs, a, b, n),
        reaches(defs, b, c, m),
    ensures
        reaches(defs, a, c, n + m),
    decreases n,
{
    if n > 0 {
        let u = choose|u: usize| #[trigger] calls(defs, a, u) && reaches(defs, u, b, (n - 1) as nat);
        lemma_reaches_trans(defs, u, b, c, (n - 1) as nat, m);
        assert((n + m - 1) as nat == (n - 1) as nat + m);
    }
}

/// A call is a chain of one call.
proof fn lemma_reaches_call(defs: Map<usize, FnInstModel>, a: usize, b: usize)
    requires
        calls(defs, a, b),
    ensures
        reaches(defs, a, b, 1),
{
    assert(reaches(defs, b, b, 0));
}

/// A lambda that calls a function that is not known may recurse.
proof fn lemma_unknown_recurses(defs: Map<usize, FnInstModel>, r: usize)
    requires
        calls_unknown(defs, r),
    ensures
        may_recurse(defs, r),
{
    reveal(may_recurse);
    assert(reaches(defs, r, r, 0));
}

/// A lambda that calls a lambda that may recurse may recurse.
proof fn lemma_caller_recurses(defs: Map<usize, FnInstModel>, r: usize, t: usize)
    requires
        calls(defs, r, t),
        may_recurse(defs, t),
    ensures
        may_recurse(defs, r),
{
    reveal(may_recurse);
    let (u, n) = choose|u: usize, n: nat| #[trigger] reaches(defs, t, u, n)
        && (calls_unknown(defs, u) || exists|m: nat| m > 0 && #[trigger] reaches(defs, u, u, m));
    lemma_reaches_call(defs, r, t);
    lemma_reaches_trans(defs, r, t, u, 1, n);
}

/// A lambda that a chain of calls leads back to may recurse.
proof fn lemma_cycle_recurses(defs: Map<usize, FnInstModel>, r: usize, m: nat)
    requires
        m > 0,
        reaches(defs, r, r, m),
    ensures
        may_recurse(defs, r),
{
    reveal(may_recurse);
    assert(reaches(defs, r, r, 0));
}

/// A call in one statement is a call of the statements.
proof fn lemma_statements_calls_index(st: Seq<AssignmentModel>, i: int, f: ValueModel)
    requires
        0 <= i < st.len(),
        statement_calls(st[i], f),
    ensures
        statements_calls(st, f),
    decreases st.len(),
{
    if i < st.len() - 1 {
        lemma_statements_calls_index(st.drop_last(), i, f);
    }
}

/// A call in one branch is a call of the branches.
proof fn lemma_branches_calls_index(bs: Seq<BranchModel>, j: int, f: ValueModel)
    requires
        0 <= j < bs.len(),
        statements_calls(bs[j].block.statements, f),
    ensures
        branches_calls(bs, f),
    decreases bs.len(),
{
    if j < bs.len() - 1 {
        lemma_branches_calls_index(bs.drop_last(), j, f);
    }
}

/// Whether a chain of at least one call leads from the lambda at `a` to the lambda at `b`.
pub open spec fn reaches_plus(defs: Map<usize, FnInstModel>, a: usize, b: usize) -> bool {
    exists|n: nat| n > 0 && #[trigger] reaches(defs, a, b, n)
}

/// Whether the lambdas being searched, each marked as recursive for now, form
/// a chain: from each, a chain of calls leads to each later one.
pub open spec fn stack_ok(defs: Map<usize, FnInstModel>, marks: Map<usize, bool>, stack: Seq<usize>) -> bool {
    &&& forall|i: int| 0 <= i < stack.len() ==> marks.contains_key(#[trigger] stack[i]) && marks[stack[i]]
    &&& forall|i: int, j: int| #![trigger stack[i], stack[j]] 0 <= i < j < stack.len() ==> reaches_plus(defs, stack[i], stack[j])
}

/// Whether every lambda marked as recursive, but for those being searched, may recurse.
pub open spec fn trues_justified(defs: Map<usize, FnInstModel>, marks: Map<usize, bool>, stack: Seq<usize>) -> bool {
    forall|r: usize| #[trigger] marks.contains_key(r) && marks[r] && !stack.contains(r) ==> may_recurse(defs, r)
}

/// Whether the lambda `o` calls a function that is not known, or a lambda
/// that is being searched or may recurse.
pub open spec fn owner_recurses(defs: Map<usize, FnInstModel>, stack: Seq<usize>, o: usize) -> bool {
    calls_unknown(defs, o) || exists|t: usize| #[trigger] calls(defs, o, t) && (stack.contains(t) || may_recurse(defs, t))
}

/// The lambda on top of a chain being searched that calls a lambda of the
/// chain, or a lambda that may recurse, or a function that is not known, may recurse.
proof fn lemma_owner_recurses(defs: Map<usize, FnInstModel>, marks: Map<usize, bool>, stack: Seq<usize>)
    requires
        stack.len() > 0,
        stack_ok(defs, marks, stack),
        owner_recurses(defs, stack, stack.last()),
    ensures
        may_recurse(defs, stack.last()),
{
    let o = stack.last();
    if calls_unknown(defs, o) {
        lemma_unknown_recurses(defs, o);
    } else {
        let t = choose|t: usize| #[trigger] calls(defs, o, t) && (stack.contains(t) || may_recurse(defs, t));
        if may_recurse(defs, t) {
            lemma_caller_recurses(defs, o, t);
        } else {
            lemma_reaches_call(defs, o, t);
            let i = choose|i: int| 0 <= i < stack.len() && stack[i] == t;
            if i == stack.len() - 1 {
                lemma_cycle_recurses(defs, o, 1);
            } else {
                assert(reaches_plus(defs, stack[i], stack[stack.len() - 1]));
                let n = choose|n: nat| n > 0 && #[trigger] reaches(defs, stack[i], stack[stack.len() - 1], n);
                lemma_reaches_trans(defs, o, t, o, 1, n);
                lemma_cycle_recurses(defs, o, 1 + n);
            }
        }
    }
}

/// Every call that safe statements make is known not to recurse.
proof fn lemma_statement_safe_call(
    defs: Map<usize, FnInstModel>,
    marks: Map<usize, bool>,
    rank: Map<usize, nat>,
    bound: nat,
    a: AssignmentModel,
    f: ValueModel,
)
    requires
        statement_safe(defs, marks, rank, bound, a),
        statement_calls(a, f),
    ensures
        call_safe(defs, marks, rank, bound, f),
    decreases 1 + esize(a.expression), 0nat,
{
    match a.expression {
        ExpressionModel::If(_, t, e) => {
            if statements_calls(t.statements, f) {
                lemma_statements_safe_call(defs, marks, rank, bound, t.statements, f);
            } else {
                lemma_statements_safe_call(defs, marks, rank, bound, e.statements, f);
            }
        },
        ExpressionModel::Match(_, bs) => {
            lemma_branches_safe_call(defs, marks, rank, bound, bs, f);
        },
        _ => {},
    }
}

proof fn lemma_statements_safe_call(
    defs: Map<usize, FnInstModel>,
    marks: Map<usize, bool>,
    rank: Map<usize, nat>,
    bound: nat,
    st: Seq<AssignmentModel>,
    f: ValueModel,
)
    requires
        statements_safe(defs, marks, rank, bound, st),
        statements_calls(st, f),
    ensures
        call_safe(defs, marks, rank, bound, f),
    decreases stsize(st), 1nat,
{
    if statements_calls(st.drop_last(), f) {
        lemma_statements_safe_call(defs, marks, rank, bound, st.drop_last(), f);
    } else {
        lemma_statement_safe_call(defs, marks, rank, bound, st.last(), f);
    }
}

proof fn lemma_branches_safe_call(
    defs: Map<usize, FnInstModel>,
    marks: Map<usize, bool>,
    rank: Map<usize, nat>,
    bound: nat,
    bs: Seq<BranchModel>,
    f: ValueModel,
)
    requires
        branches_safe(defs, marks, rank, bound, bs),
        branches_calls(bs, f),
    ensures
        call_safe(defs, marks, rank, bound, f),
    decreases brsize(bs), 1nat,
{
    assert(bsize(bs.last().block) == 1 + stsize(bs.last().block.statements));
    if branches_calls(bs.drop_last(), f) {
        lemma_branches_safe_call(defs, marks, rank, bound, bs.drop_last(), f);
    } else {
        lemma_statements_safe_call(defs, marks, rank, bound, bs.last().block.statements, f);
    }
}

/// Along a chain of calls from a lambda marked as not recursive, every lambda
/// is marked as not recursive, and the ranks fall by one at least at each call.
proof fn lemma_chain_ranks(defs: Map<usize, FnInstModel>, marks: Map<usize, bool>, rank: Map<usize, nat>, r: usize, t: usize, n: nat)
    requires
        marks_sound(defs, marks, rank),
        marks.contains_key(r),
        !marks[r],
        reaches(defs, r, t, n),
    ensures
        marks.contains_key(t),
        !marks[t],
        rank[t] + n <= rank[r],
        !calls_unknown(defs, t),
    decreases n,
{
    if n > 0 {
        let u = choose|u: usize| #[trigger] calls(defs, r, u) && reaches(defs, u, t, (n - 1) as nat);
        let f = choose|f: ValueModel| #[trigger] statements_calls(body_of(defs, r), f) && lambda_call(defs, f, u);
        lemma_statements_safe_call(defs, marks, rank, rank[r], body_of(defs, r), f);
        lemma_chain_ranks(defs, marks, rank, u, t, (n - 1) as nat);
    } else {
        if calls_unknown(defs, t) {
            let f = choose|f: ValueModel| #[trigger] statements_calls(body_of(defs, t), f) && unknown_call(defs, f);
            lemma_statements_safe_call(defs, marks, rank, rank[t], body_of(defs, t), f);
        }
    }
}

/// A lambda marked as not recursive by sound marks cannot recurse: no chain
/// of calls from it leads to a call of a function that is not known, or to a
/// lambda from which a chain of calls leads back to it.
pub proof fn law_not_recursive_is_safe(defs: Map<usize, FnInstModel>, marks: Map<usize, bool>, rank: Map<usize, nat>, r: usize)
    requires
        marks_sound(defs, marks, rank),
        marks.contains_key(r),
        !marks[r],
    ensures
        !may_recurse(defs, r),
{
    reveal(may_recurse);
    if may_recurse(defs, r) {
        let (t, n) = choose|t: usize, n: nat| #[trigger] reaches(defs, r, t, n)
            && (calls_unknown(defs, t) || exists|m: nat| m > 0 && #[trigger] reaches(defs, t, t, m));
        lemma_chain_ranks(defs, marks, rank, r, t, n);
        if !calls_unknown(defs, t) {
            let m = choose|m: nat| m > 0 && #[trigger] reaches(defs, t, t, m);
            lemma_chain_ranks(defs, marks, rank, t, t, m);
        }
    }
}

// ---------------------------------------------------------------------------
// The finder.

/// Finds which lambdas of a program count as recursive, from the functions
/// that its locations hold.
pub struct RecursiveFnFinder {
    fn_defs: FnDefs,
}

impl View for RecursiveFnFinder {
    type V = Map<usize, FnInstModel>;

    closed spec fn view(&self) -> Map<usize, FnInstModel> {
        fn_defs_view(self.fn_defs@)
    }
}

/// Whether every chain of copies that a call in the body of a lambda follows ends.
pub open spec fn calls_end(defs: Map<usize, FnInstModel>) -> bool {
    forall|r: usize, f: ValueModel| defs.contains_key(r) && defs[r] is Lambda && #[trigger] statements_calls(body_of(defs, r), f)
        ==> (f matches ValueModel::Memory(s) ==> ref_ends(defs, s.location))
}

impl RecursiveFnFinder {
    /// Whether the chains of copies that calls follow end, and the finder
    /// knows finitely many locations.
    pub open spec fn wf(&self) -> bool {
        &&& calls_end(self@)
        &&& self@.dom().finite()
    }

    /// The location at the end of the chain of copies from a location.
    fn root_location(&self, location: &Location) -> (res: usize)
        requires
            self.wf(),
            ref_ends(self@, location.0),
        ensures
            res == ref_root(self@, location.0),
            ref_step(self@, res) is None,
    {
        let ghost m = self@;
        let ghost r0 = location.0;
        proof {
            assert(ref_ends(m, r0));
        }
        let ghost n = ref_length(m, r0);
        let ghost mut k: nat = 0;
        let mut r = location.0;
        loop
            invariant
                m == self@,
                m == fn_defs_view(self.fn_defs@),
                r0 == location.0,
                ref_ends(m, r0),
                n == ref_length(m, r0),
                ref_step(m, follow_ref(m, r0, n)) is None,
                r == follow_ref(m, r0, k),
                k <= n,
            decreases n - k,
        {
            match self.fn_defs.get(&r) {
                Some(FnInst::Ref(next)) => {
                    proof {
                        lemma_follow_ref_succ(m, r0, k);
                        if k == n {
                            assert(false);
                        }
                        k = k + 1;
                    }
                    r = next.0;
                },
                _ => {
                    proof {
                        lemma_ref_root(m, r0, k);
                    }
                    return r;
                },
            }
        }
    }

    /// Whether the lambda at a location counts as recursive. While its body is
    /// checked it is marked as recursive, so that a call back to it counts; a
    /// lambda found not recursive gets the next rank.
    fn find(&self, r: usize, recursive_fns: &mut RecursiveFns, rank: Ghost<Map<usize, nat>>, stack: Ghost<Seq<usize>>)
        -> (res: (bool, Ghost<Map<usize, nat>>))
        requires
            self.wf(),
            self@.contains_key(r),
            self@[r] is Lambda,
            marks_sound(self@, old(recursive_fns)@, rank@),
            stack_ok(self@, old(recursive_fns)@, stack@),
            trues_justified(self@, old(recursive_fns)@, stack@),
            stack@.len() > 0 ==> calls(self@, stack@.last(), r),
        ensures
            marks_sound(self@, final(recursive_fns)@, res.1@),
            extends(old(recursive_fns)@, final(recursive_fns)@),
            ranks_extend(rank@, res.1@),
            final(recursive_fns)@.contains_key(r),
            res.0 == final(recursive_fns)@[r],
            stack_ok(self@, final(recursive_fns)@, stack@),
            trues_justified(self@, final(recursive_fns)@, stack@),
            res.0 ==> stack@.contains(r) || may_recurse(self@, r),
        decreases unmarked(self@, old(recursive_fns)@), 0nat, 0nat,
    {
        match recursive_fns.get(&r) {
            Some(marked) => {
                return (*marked, rank);
            },
            None => {},
        }
        let ghost m0 = recursive_fns@;
        recursive_fns.insert(r, true);
        let ghost m1 = recursive_fns@;
        proof {
            lemma_unmarked_insert(self@, m0, r, true);
            assert(keeps_safe(m0, m1));
            assert(extends(m0, m1));
            assert forall|k: usize| #[trigger] m1.contains_key(k) implies self@.contains_key(k) && self@[k] is Lambda
                && (!m1[k] ==> rank@.contains_key(k) && statements_safe(self@, m1, rank@, rank@[k], body_of(self@, k))) by {
                if k != r && !m1[k] {
                    lemma_statements_safe_mono(self@, m0, m1, rank@, rank@, rank@[k], rank@[k], body_of(self@, k));
                }
            }
            assert(marks_sound(self@, m1, rank@));
            assert(!stack@.contains(r));
        }
        let ghost inner = stack@.push(r);
        proof {
            assert forall|i: int| 0 <= i < inner.len() implies m1.contains_key(#[trigger] inner[i]) && m1[inner[i]] by {
                if i < stack@.len() {
                    assert(inner[i] == stack@[i]);
                }
            }
            assert forall|i: int, j: int| #![trigger inner[i], inner[j]] 0 <= i < j < inner.len()
                implies reaches_plus(self@, inner[i], inner[j]) by {
                assert(inner[i] == stack@[i]);
                if j < stack@.len() {
                    assert(inner[j] == stack@[j]);
                    assert(reaches_plus(self@, stack@[i], stack@[j]));
                } else {
                    lemma_reaches_call(self@, stack@.last(), r);
                    if i == stack@.len() - 1 {
                        assert(reaches(self@, inner[i], inner[j], 1));
                        assert(reaches_plus(self@, inner[i], inner[j]));
                    } else {
                        assert(reaches_plus(self@, stack@[i], stack@[stack@.len() - 1]));
                        let n = choose|n: nat| n > 0 && #[trigger] reaches(self@, stack@[i], stack@[stack@.len() - 1], n);
                        lemma_reaches_trans(self@, stack@[i], stack@.last(), r, n, 1);
                        assert(reaches(self@, inner[i], inner[j], n + 1));
                        assert(reaches_plus(self@, inner[i], inner[j]));
                    }
                }
            }
            assert(stack_ok(self@, m1, inner));
            assert(inner[inner.len() - 1] == r);
            assert forall|k: usize| #[trigger] m1.contains_key(k) && m1[k] && !inner.contains(k) implies may_recurse(self@, k) by {
                assert(k != r);
                if stack@.contains(k) {
                    let i = choose|i: int| 0 <= i < stack@.len() && stack@[i] == k;
                    assert(inner[i] == k);
                }
            }
            assert(inner.last() == r);
        }
        let (is_recursive, rank2) = match self.fn_defs.get(&r) {
            Some(FnInst::Lambda(lambda)) => {
                proof {
                    crate::intermediate::lemma_block_view(lambda.block);
                    assert(body_of(self@, r) == statements_view(lambda.block.statements@));
                }
                self.check(&lambda.block.statements, recursive_fns, rank, Ghost(inner))
            },
            _ => {
                proof {
                    assert(false);
                }
                (true, rank)
            },
        };
        let ghost m2 = recursive_fns@;
        let ghost k2 = rank2@;
        recursive_fns.insert(r, is_recursive);
        let ghost m3 = recursive_fns@;
        let ghost k3 = if is_recursive { k2 } else { k2.insert(r, k2.dom().len()) };
        proof {
            assert(m1.contains_key(r) && m1[r] == true);
            assert(m1.contains_key(r) ==> m2.contains_key(r) && m2[r] == m1[r]);
            assert(m2.contains_key(r) && m2[r] == true);
            assert(!k2.contains_key(r));
            assert(keeps_safe(m2, m3));
            assert(ranks_extend(k2, k3));
            assert(k3.dom().finite());
            if !is_recursive {
                assert(k3.dom() =~= k2.dom().insert(r));
                assert(k3.dom().len() == k2.dom().len() + 1);
                lemma_statements_safe_mono(self@, m2, m3, k2, k3, k2.dom().len(), k2.dom().len(), body_of(self@, r));
            } else {
                assert(m3 =~= m2);
            }
            assert forall|k: usize| #[trigger] m3.contains_key(k) implies self@.contains_key(k) && self@[k] is Lambda
                && (!m3[k] ==> k3.contains_key(k) && statements_safe(self@, m3, k3, k3[k], body_of(self@, k))) by {
                if k != r {
                    assert(m2.contains_key(k));
                    if !m3[k] {
                        lemma_statements_safe_mono(self@, m2, m3, k2, k3, k2[k], k3[k], body_of(self@, k));
                    }
                }
            }
            assert forall|k: usize| #[trigger] k3.contains_key(k) implies m3.contains_key(k) && !m3[k] && k3[k] < k3.dom().len() by {
                if k != r {
                    assert(k2.contains_key(k));
                }
            }
            assert(extends(m0, m3));
            if is_recursive {
                lemma_owner_recurses(self@, m2, inner);
            }
            assert forall|i: int| 0 <= i < stack@.len() implies m3.contains_key(#[trigger] stack@[i]) && m3[stack@[i]] by {
                assert(inner[i] == stack@[i]);
                assert(stack@[i] != r);
            }
            assert forall|k: usize| #[trigger] m3.contains_key(k) && m3[k] && !stack@.contains(k) implies may_recurse(self@, k) by {
                if k != r {
                    assert(m2.contains_key(k) && m2[k]);
                    if inner.contains(k) {
                        let i = choose|i: int| 0 <= i < inner.len() && inner[i] == k;
                        assert(i < stack@.len());
                        assert(stack@[i] == k);
                    }
                }
            }
        }
        (is_recursive, Ghost(k3))
    }

    /// Whether the statements of a body call a function that may recurse: an
    /// argument, a location that holds no known function, or a lambda that
    /// counts as recursive.
    fn check(&self, statements: &Vec<IntermediateStatement>, recursive_fns: &mut RecursiveFns, rank: Ghost<Map<usize, nat>>,
        stack: Ghost<Seq<usize>>) -> (res: (bool, Ghost<Map<usize, nat>>))
        requires
            self.wf(),
            marks_sound(self@, old(recursive_fns)@, rank@),
            stack@.len() > 0,
            stack_ok(self@, old(recursive_fns)@, stack@),
            trues_justified(self@, old(recursive_fns)@, stack@),
            forall|f: ValueModel| #[trigger] statements_calls(statements_view(statements@), f)
                ==> statements_calls(body_of(self@, stack@.last()), f),
        ensures
            marks_sound(self@, final(recursive_fns)@, res.1@),
            extends(old(recursive_fns)@, final(recursive_fns)@),
            ranks_extend(rank@, res.1@),
            !res.0 ==> statements_safe(self@, final(recursive_fns)@, res.1@, res.1@.dom().len(), statements_view(statements@)),
            stack_ok(self@, final(recursive_fns)@, stack@),
            trues_justified(self@, final(recursive_fns)@, stack@),
            res.0 ==> owner_recurses(self@, stack@, stack@.last()),
        decreases unmarked(self@, old(recursive_fns)@), stsize(statements_view(statements@)), 1nat,
    {
        let ghost st = statements_view(statements@);
        let ghost m0 = recursive_fns@;
        let ghost rank0 = rank@;
        let mut current = rank;
        let mut i: usize = 0;
        proof {
            assert(st.take(0) =~= Seq::<AssignmentModel>::empty());
        }
        while i < statements.len()
            invariant
                i <= statements.len(),
                self.wf(),
                st == statements_view(statements@),
                m0 == old(recursive_fns)@,
                marks_sound(self@, recursive_fns@, current@),
                extends(m0, recursive_fns@),
                rank0 == rank@,
                ranks_extend(rank0, current@),
                unmarked(self@, recursive_fns@) <= unmarked(self@, m0),
                statements_safe(self@, recursive_fns@, current@, current@.dom().len(), st.take(i as int)),
                stack@.len() > 0,
                stack_ok(self@, recursive_fns@, stack@),
                trues_justified(self@, recursive_fns@, stack@),
                forall|f: ValueModel| #[trigger] statements_calls(st, f) ==> statements_calls(body_of(self@, stack@.last()), f),
            decreases statements.len() - i,
        {
            let ghost mi = recursive_fns@;
            let ghost ri = current@;
            proof {
                assert(st.take(i + 1).drop_last() =~= st.take(i as int));
                assert(st.take(i + 1).last() == st[i as int]);
                crate::compiler::lemma_stsize_prefix(st, i + 1);
                assert forall|f: ValueModel| #[trigger] statement_calls(statements@[i as int]@, f)
                    implies statements_calls(body_of(self@, stack@.last()), f) by {
                    assert(st[i as int] == statements@[i as int]@);
                    lemma_statements_calls_index(st, i as int, f);
                }
            }
            let (found, rank2) = self.check_statement(&statements[i], recursive_fns, current, stack);
            proof {
                self.lemma_marks_grow(m0, mi, recursive_fns@);
                lemma_ranks_trans(rank0, ri, rank2@);
            }
            if found {
                return (true, rank2);
            }
            proof {
                self.lemma_rank_len(ri, rank2@);
                lemma_statements_safe_mono(self@, mi, recursive_fns@, ri, rank2@, ri.dom().len(), rank2@.dom().len(), st.take(i as int));
            }
            current = rank2;
            i = i + 1;
        }
        proof {
            assert(st.take(statements.len() as int) =~= st);
        }
        (false, current)
    }

    /// Whether a statement calls a function that may recurse, in its branches too.
    #[verifier::rlimit(40)]
    fn check_statement(&self, statement: &IntermediateStatement, recursive_fns: &mut RecursiveFns, rank: Ghost<Map<usize, nat>>,
        stack: Ghost<Seq<usize>>) -> (res: (bool, Ghost<Map<usize, nat>>))
        requires
            self.wf(),
            marks_sound(self@, old(recursive_fns)@, rank@),
            stack@.len() > 0,
            stack_ok(self@, old(recursive_fns)@, stack@),
            trues_justified(self@, old(recursive_fns)@, stack@),
            forall|f: ValueModel| #[trigger] statement_calls(statement@, f) ==> statements_calls(body_of(self@, stack@.last()), f),
        ensures
            marks_sound(self@, final(recursive_fns)@, res.1@),
            extends(old(recursive_fns)@, final(recursive_fns)@),
            ranks_extend(rank@, res.1@),
            !res.0 ==> statement_safe(self@, final(recursive_fns)@, res.1@, res.1@.dom().len(), statement@),
            stack_ok(self@, final(recursive_fns)@, stack@),
            trues_justified(self@, final(recursive_fns)@, stack@),
            res.0 ==> owner_recurses(self@, stack@, stack@.last()),
        decreases unmarked(self@, old(recursive_fns)@), 1 + esize(statement@.expression), 0nat,
    {
        let ghost m0 = recursive_fns@;
        let ghost rank0 = rank@;
        proof {
            assert(extends(m0, m0));
            assert(ranks_extend(rank0, rank0));
        }
        let IntermediateStatement::IntermediateAssignment(assignment) = statement;
        match &assignment.expression {
            IntermediateExpression::IntermediateFnCall(call) => match &call.fn_ {
                IntermediateValue::IntermediateBuiltIn(_) => (false, rank),
                IntermediateValue::IntermediateMemory(memory) => {
                    let ghost f = call.fn_@;
                    proof {
                        assert(statement_calls(statement@, f));
                        assert(statements_calls(body_of(self@, stack@.last()), f));
                        let o = stack@.last();
                        assert(stack@[stack@.len() - 1] == o);
                        assert(recursive_fns@.contains_key(o));
                        assert(self@.contains_key(o) && self@[o] is Lambda);
                        assert(ref_ends(self@, memory.location.0));
                    }
                    let root = self.root_location(&memory.location);
                    proof {
                        lemma_root_not_ref(self@, memory.location.0);
                    }
                    match self.fn_defs.get(&root) {
                        Some(FnInst::Lambda(_)) => {
                            proof {
                                assert(lambda_call(self@, f, root));
                                assert(calls(self@, stack@.last(), root));
                            }
                            self.find(root, recursive_fns, rank, stack)
                        },
                        Some(FnInst::BuiltIn(_)) => (false, rank),
                        _ => {
                            proof {
                                assert(unknown_call(self@, f));
                                assert(calls_unknown(self@, stack@.last()));
                            }
                            (true, rank)
                        },
                    }
                },
                IntermediateValue::IntermediateArg(_) => {
                    proof {
                        let f = call.fn_@;
                        assert(statement_calls(statement@, f));
                        assert(unknown_call(self@, f));
                        assert(calls_unknown(self@, stack@.last()));
                    }
                    (true, rank)
                },
            },
            IntermediateExpression::IntermediateIf(if_) => {
                proof {
                    crate::intermediate::lemma_block_view(if_.branches.0);
                    crate::intermediate::lemma_block_view(if_.branches.1);
                }
                proof {
                    assert forall|f: ValueModel| #[trigger] statements_calls(statements_view(if_.branches.0.statements@), f)
                        implies statements_calls(body_of(self@, stack@.last()), f) by {
                        assert(statement_calls(statement@, f));
                    }
                    assert forall|f: ValueModel| #[trigger] statements_calls(statements_view(if_.branches.1.statements@), f)
                        implies statements_calls(body_of(self@, stack@.last()), f) by {
                        assert(statement_calls(statement@, f));
                    }
                }
                let (left, rank_a) = self.check(&if_.branches.0.statements, recursive_fns, rank, stack);
                if left {
                    return (true, rank_a);
                }
                let ghost ma = recursive_fns@;
                proof {
                    self.lemma_marks_grow(m0, m0, ma);
                }
                let (right, rank_b) = self.check(&if_.branches.1.statements, recursive_fns, rank_a, stack);
                proof {
                    self.lemma_marks_grow(m0, ma, recursive_fns@);
                    lemma_ranks_trans(rank0, rank_a@, rank_b@);
                }
                if right {
                    return (true, rank_b);
                }
                proof {
                    self.lemma_rank_len(rank_a@, rank_b@);
                    lemma_statements_safe_mono(self@, ma, recursive_fns@, rank_a@, rank_b@, rank_a@.dom().len(),
                        rank_b@.dom().len(), statements_view(if_.branches.0.statements@));
                }
                (false, rank_b)
            },
            IntermediateExpression::IntermediateMatch(match_) => {
                proof {
                    crate::intermediate::lemma_match_view(*match_);
                }
                let ghost bs = branches_view(match_.branches@);
                let mut current = rank;
                let mut j: usize = 0;
                proof {
                    assert(bs.take(0) =~= Seq::<BranchModel>::empty());
                    assert forall|f: ValueModel| #[trigger] branches_calls(bs, f)
                        implies statements_calls(body_of(self@, stack@.last()), f) by {
                        assert(statement_calls(statement@, f));
                    }
                }
                while j < match_.branches.len()
                    invariant
                        j <= match_.branches.len(),
                        self.wf(),
                        bs == branches_view(match_.branches@),
                        statement@.expression == ExpressionModel::Match(match_.subject@, bs),
                        m0 == old(recursive_fns)@,
                        marks_sound(self@, recursive_fns@, current@),
                        extends(m0, recursive_fns@),
                        rank0 == rank@,
                        ranks_extend(rank0, current@),
                        unmarked(self@, recursive_fns@) <= unmarked(self@, m0),
                        branches_safe(self@, recursive_fns@, current@, current@.dom().len(), bs.take(j as int)),
                        stack@.len() > 0,
                        stack_ok(self@, recursive_fns@, stack@),
                        trues_justified(self@, recursive_fns@, stack@),
                        forall|f: ValueModel| #[trigger] branches_calls(bs, f) ==> statements_calls(body_of(self@, stack@.last()), f),
                    decreases match_.branches.len() - j,
                {
                    let ghost mj = recursive_fns@;
                    let ghost rj = current@;
                    proof {
                        assert(bs.take(j + 1).drop_last() =~= bs.take(j as int));
                        assert(bs.take(j + 1).last() == bs[j as int]);
                        crate::compiler::lemma_brsize_prefix(bs, j + 1);
                        crate::intermediate::lemma_block_view(match_.branches@[j as int].block);
                        assert forall|f: ValueModel| #[trigger] statements_calls(statements_view(match_.branches@[j as int].block.statements@), f)
                            implies statements_calls(body_of(self@, stack@.last()), f) by {
                            assert(bs[j as int].block.statements == statements_view(match_.branches@[j as int].block.statements@));
                            lemma_branches_calls_index(bs, j as int, f);
                        }
                    }
                    let (found, rank2) = self.check(&match_.branches[j].block.statements, recursive_fns, current, stack);
                    proof {
                        self.lemma_marks_grow(m0, mj, recursive_fns@);
                        lemma_ranks_trans(rank0, rj, rank2@);
                    }
                    if found {
                        return (true, rank2);
                    }
                    proof {
                        self.lemma_rank_len(rj, rank2@);
                        lemma_branches_safe_mono(self@, mj, recursive_fns@, rj, rank2@, rj.dom().len(), rank2@.dom().len(),
                            bs.take(j as int));
                    }
                    current = rank2;
                    j = j + 1;
                }
                proof {
                    assert(bs.take(match_.branches.len() as int) =~= bs);
                }
                (false, current)
            },
            _ => (false, rank),
        }
    }

    /// Marks that grow in two steps grow, and leave no more locations unmarked.
    proof fn lemma_marks_grow(&self, m0: Map<usize, bool>, m1: Map<usize, bool>, m2: Map<usize, bool>)
        requires
            self.wf(),
            extends(m0, m1),
            extends(m1, m2),
        ensures
            extends(m0, m2),
            keeps_safe(m1, m2),
            unmarked(self@, m2) <= unmarked(self@, m0),
    {
        lemma_unmarked_mono(self@, m0, m2);
    }

    /// Ranks that grow have no fewer entries.
    proof fn lemma_rank_len(&self, r1: Map<usize, nat>, r2: Map<usize, nat>)
        requires
            ranks_extend(r1, r2),
            r2.dom().finite(),
        ensures
            r1.dom().len() <= r2.dom().len(),
            r1.dom().finite(),
    {
        assert(r1.dom().subset_of(r2.dom()));
        vstd::set_lib::lemma_len_subset(r1.dom(), r2.dom());
    }

    /// Which lambdas of a program count as recursive, by the locations that
    /// hold them: every lambda gets a mark, and it is marked as recursive
    /// exactly when a chain of calls from it leads to a call of an argument or
    /// of a location that holds no known function, or into a cycle of calls.
    /// The lambdas marked as not recursive can be ranked so that each calls
    /// only built-in functions and lambdas of lower rank marked as not recursive.
    pub fn recursive_fns(program: &IntermediateProgram) -> (res: RecursiveFns)
        requires
            calls_end(collect_statements(Map::empty(), program.main@.block.statements)),
        ensures
            exists|rank: Map<usize, nat>| marks_sound(collect_statements(Map::empty(), program.main@.block.statements), res@, rank),
            forall|r: usize| #[trigger] res@.contains_key(r)
                ==> (res@[r] <==> may_recurse(collect_statements(Map::empty(), program.main@.block.statements), r)),
            forall|r: usize| #[trigger] res@.contains_key(r)
                ==> collect_statements(Map::empty(), program.main@.block.statements).contains_key(r)
                    && collect_statements(Map::empty(), program.main@.block.statements)[r] is Lambda,
            forall|r: usize| #![trigger res@.contains_key(r)]
                collect_statements(Map::empty(), program.main@.block.statements).contains_key(r)
                && collect_statements(Map::empty(), program.main@.block.statements)[r] is Lambda
                    ==> res@.contains_key(r),
    {
        let mut finder = RecursiveFnFinder { fn_defs: HashMap::new() };
        proof {
            assert(fn_defs_view(finder.fn_defs@) =~= Map::<usize, FnInstModel>::empty());
            crate::intermediate::lemma_block_view(program.main.block);
        }
        FnInst::collect_fn_defs_from_statements(&program.main.block.statements, &mut finder.fn_defs);
        let ghost defs = finder@;
        let targets = IntermediateStatement::all_targets(&program.main.block.statements);
        let ghost tv = crate::ir_ops::locations_view(targets@);
        let mut recursive_fns: RecursiveFns = HashMap::new();
        let mut rank: Ghost<Map<usize, nat>> = Ghost(Map::empty());
        let mut i: usize = 0;
        proof {
            assert(defs == collect_statements(Map::empty(), program.main@.block.statements));
            assert(finder.fn_defs@.dom().finite());
            assert(defs.dom() =~= finder.fn_defs@.dom());
            assert(marks_sound(defs, recursive_fns@, rank@));
            assert(trues_justified(defs, recursive_fns@, Seq::<usize>::empty()));
        }
        while i < targets.len()
            invariant
                i <= targets.len(),
                finder.wf(),
                defs == finder@,
                tv == crate::ir_ops::locations_view(targets@),
                marks_sound(defs, recursive_fns@, rank@),
                trues_justified(defs, recursive_fns@, Seq::<usize>::empty()),
                forall|t: int| 0 <= t < i && defs.contains_key(#[trigger] tv[t]) && defs[tv[t]] is Lambda
                    ==> recursive_fns@.contains_key(tv[t]),
            decreases targets.len() - i,
        {
            let location = targets[i].0;
            match finder.fn_defs.get(&location) {
                Some(FnInst::Lambda(_)) => {
                    let (_, rank2) = finder.find(location, &mut recursive_fns, rank, Ghost(Seq::empty()));
                    rank = rank2;
                },
                _ => {},
            }
            proof {
                assert(tv[i as int] == location);
            }
            i = i + 1;
        }
        proof {
            assert forall|r: usize| defs.contains_key(r) && defs[r] is Lambda implies #[trigger] recursive_fns@.contains_key(r) by {
                lemma_collect_statements_dom(Map::empty(), program.main@.block.statements, r);
                let u = choose|u: int| 0 <= u < tv.len() && tv[u] == r;
                assert(defs.contains_key(tv[u]));
            }
            assert forall|r: usize| #[trigger] recursive_fns@.contains_key(r) implies
                (recursive_fns@[r] <==> may_recurse(defs, r)) by {
                if !recursive_fns@[r] {
                    law_not_recursive_is_safe(defs, recursive_fns@, rank@, r);
                }
            }
        }
        recursive_fns
    }
}

} // verus!
