//! The functions that locations hold: lambdas, built-in functions, and
//! locations that copy another location holding a function.

use vstd::prelude::*;
use std::collections::HashMap;
use crate::compiler::{brsize, bsize, esize, stsize};
use crate::intermediate::{
    branches_view, builtin_view, statements_view, BuiltInFn, IntermediateBuiltIn, IntermediateExpression,
    IntermediateLambda, IntermediateStatement, IntermediateValue, Location,
};
use crate::ir_model::{AssignmentModel, BranchModel, BuiltInModel, ExpressionModel, LambdaModel, ValueModel};

verus! {

broadcast use vstd::std_specs::hash::group_hash_axioms;

/// A way to identify a function: the lambda itself, a built-in function, or
/// the location of another function.
pub enum FnInst {
    Lambda(IntermediateLambda),
    BuiltIn(BuiltInFn),
    Ref(Location),
}

/// The model of a way to identify a function.
pub enum FnInstModel {
    Lambda(LambdaModel),
    BuiltIn(BuiltInModel),
    Ref(usize),
}

pub open spec fn fn_inst_view(f: FnInst) -> FnInstModel {
    match f {
        FnInst::Lambda(l) => FnInstModel::Lambda(l@),
        FnInst::BuiltIn(b) => FnInstModel::BuiltIn(builtin_view(IntermediateBuiltIn::BuiltInFn(b))),
        FnInst::Ref(r) => FnInstModel::Ref(r.0),
    }
}

impl View for FnInst {
    type V = FnInstModel;

    open spec fn view(&self) -> FnInstModel {
        fn_inst_view(*self)
    }
}

/// The function that each location holds, keyed by the location's number.
pub type FnDefs = HashMap<usize, FnInst>;

/// The model of the functions of locations.
pub open spec fn fn_defs_view(m: Map<usize, FnInst>) -> Map<usize, FnInstModel> {
    Map::new(|k: usize| m.contains_key(k), |k: usize| m[k]@)
}

/// The function at the root of a chain of locations: a lambda or a built-in function.
pub enum RootFn {
    Lambda(IntermediateLambda),
    BuiltIn(BuiltInFn),
}

// ---------------------------------------------------------------------------
// Collecting the functions of locations.

/// The functions known after an assignment: a lambda or a built-in function
/// is recorded for its location, as is a copy of a location that holds a
/// function; the lambdas and branches inside are collected too.
pub open spec fn collect_statement(m: Map<usize, FnInstModel>, a: AssignmentModel) -> Map<usize, FnInstModel>
    decreases 1 + esize(a.expression), 0nat,
{
    match a.expression {
        ExpressionModel::Lambda(l) => collect_statements(m.insert(a.location, FnInstModel::Lambda(l)), l.block.statements),
        ExpressionModel::Value(ValueModel::BuiltIn(b)) => match b {
            BuiltInModel::Function(_, _, _) => m.insert(a.location, FnInstModel::BuiltIn(b)),
            _ => m,
        },
        ExpressionModel::Value(ValueModel::Memory(s)) => if m.contains_key(s.location) {
            m.insert(a.location, FnInstModel::Ref(s.location))
        } else {
            m
        },
        ExpressionModel::If(_, t, f) => collect_statements(collect_statements(m, t.statements), f.statements),
        ExpressionModel::Match(_, bs) => collect_branches(m, bs),
        _ => m,
    }
}

pub open spec fn collect_statements(m: Map<usize, FnInstModel>, st: Seq<AssignmentModel>) -> Map<usize, FnInstModel>
    decreases stsize(st), 1nat,
{
    if st.len() == 0 {
        m
    } else {
        collect_statement(collect_statements(m, st.drop_last()), st.last())
    }
}

pub open spec fn collect_branches(m: Map<usize, FnInstModel>, bs: Seq<BranchModel>) -> Map<usize, FnInstModel>
    decreases brsize(bs), 1nat,
{
    if bs.len() == 0 {
        m
    } else {
        proof {
            assert(bsize(bs.last().block) == 1 + stsize(bs.last().block.statements));
        }
        collect_statements(collect_branches(m, bs.drop_last()), bs.last().block.statements)
    }
}

// ---------------------------------------------------------------------------
// Following locations to their functions.

/// The location that a location copies, if it holds a copy.
pub open spec fn ref_step(m: Map<usize, FnInstModel>, r: usize) -> Option<usize> {
    if m.contains_key(r) {
        match m[r] {
            FnInstModel::Ref(s) => Some(s),
            _ => None,
        }
    } else {
        None
    }
}

/// The location reached from `r` after following at most `n` copies.
pub open spec fn follow_ref(m: Map<usize, FnInstModel>, r: usize, n: nat) -> usize
    decreases n,
{
    if n == 0 {
        r
    } else {
        match ref_step(m, r) {
            Some(s) => follow_ref(m, s, (n - 1) as nat),
            None => r,
        }
    }
}

/// Whether following copies from `r` reaches a location that is no copy.
pub open spec fn ref_ends(m: Map<usize, FnInstModel>, r: usize) -> bool {
    exists|n: nat| ref_step(m, #[trigger] follow_ref(m, r, n)) is None
}

/// A number of copies after which the chain from `r` has ended, if it ends.
pub open spec fn ref_length(m: Map<usize, FnInstModel>, r: usize) -> nat {
    choose|n: nat| ref_step(m, #[trigger] follow_ref(m, r, n)) is None
}

/// The location at the end of the chain of copies from `r`.
pub open spec fn ref_root(m: Map<usize, FnInstModel>, r: usize) -> usize {
    follow_ref(m, r, ref_length(m, r))
}

/// The function at the end of the chain of copies from `r`, if any.
pub open spec fn root_fn(m: Map<usize, FnInstModel>, r: usize) -> Option<FnInstModel> {
    if m.contains_key(ref_root(m, r)) { Some(m[ref_root(m, r)]) } else { None }
}

/// Whether every chain of copies ends.
pub open spec fn refs_end(m: Map<usize, FnInstModel>) -> bool {
    forall|r: usize| #[trigger] ref_ends(m, r)
}

pub proof fn lemma_follow_ref_succ(m: Map<usize, FnInstModel>, r: usize, k: nat)
    ensures
        follow_ref(m, r, k + 1) == match ref_step(m, follow_ref(m, r, k)) {
            Some(s) => s,
            None => follow_ref(m, r, k),
        },
    decreases k,
{
    reveal_with_fuel(follow_ref, 2);
    if k > 0 {
        match ref_step(m, r) {
            Some(s) => lemma_follow_ref_succ(m, s, (k - 1) as nat),
            None => {},
        }
    }
}

pub proof fn lemma_follow_ref_fixed(m: Map<usize, FnInstModel>, r: usize, a: nat, b: nat)
    requires
        a <= b,
        ref_step(m, follow_ref(m, r, a)) is None,
    ensures
        follow_ref(m, r, b) == follow_ref(m, r, a),
    decreases b - a,
{
    if a < b {
        lemma_follow_ref_fixed(m, r, a, (b - 1) as nat);
        lemma_follow_ref_succ(m, r, (b - 1) as nat);
    }
}

/// The root of a chain is no copy, and it is where the chain ends.
pub proof fn lemma_ref_root(m: Map<usize, FnInstModel>, r: usize, k: nat)
    requires
        ref_ends(m, r),
        ref_step(m, follow_ref(m, r, k)) is None,
    ensures
        ref_root(m, r) == follow_ref(m, r, k),
        ref_step(m, ref_root(m, r)) is None,
{
    let n = ref_length(m, r);
    if k <= n {
        lemma_follow_ref_fixed(m, r, k, n);
    } else {
        lemma_follow_ref_fixed(m, r, n, k);
    }
}

/// Built-in functions with the same name and type have the same model.
proof fn lemma_builtin_clone_view(a: BuiltInFn, b: BuiltInFn)
    requires
        a.0@ == b.0@,
        a.1@ == b.1@,
    ensures
        builtin_view(IntermediateBuiltIn::BuiltInFn(a)) == builtin_view(IntermediateBuiltIn::BuiltInFn(b)),
{
    let ta = crate::intermediate::type_view(crate::intermediate::IntermediateType::IntermediateFnType(a.1));
    let tb = crate::intermediate::type_view(crate::intermediate::IntermediateType::IntermediateFnType(b.1));
    assert(ta == tb);
    assert(crate::intermediate::types_view(a.1.0@) =~= ta->Function_0);
    assert(crate::intermediate::types_view(b.1.0@) =~= tb->Function_0);
}

// ---------------------------------------------------------------------------
// The executable functions.

impl FnInst {
    fn collect_fn_defs_from_statement(statement: &IntermediateStatement, fn_defs: &mut FnDefs)
        ensures
            fn_defs_view(final(fn_defs)@) == collect_statement(fn_defs_view(old(fn_defs)@), statement@),
        decreases 1 + esize(statement@.expression), 0nat,
    {
        match statement {
            IntermediateStatement::IntermediateAssignment(assignment) => {
                let ghost m0 = fn_defs_view(fn_defs@);
                let location = assignment.location.0;
                match &assignment.expression {
                    IntermediateExpression::IntermediateLambda(lambda) => {
                        fn_defs.insert(location, FnInst::Lambda(lambda.clone()));
                        proof {
                            assert(fn_defs_view(fn_defs@) =~= m0.insert(location, FnInstModel::Lambda(lambda@)));
                            crate::intermediate::lemma_block_view(lambda.block);
                        }
                        Self::collect_fn_defs_from_statements(&lambda.block.statements, fn_defs);
                    },
                    IntermediateExpression::IntermediateValue(IntermediateValue::IntermediateBuiltIn(
                        IntermediateBuiltIn::BuiltInFn(fn_),
                    )) => {
                        let copy = fn_.clone();
                        proof {
                            lemma_builtin_clone_view(copy, *fn_);
                        }
                        fn_defs.insert(location, FnInst::BuiltIn(copy));
                        proof {
                            assert(fn_defs_view(fn_defs@) =~= m0.insert(
                                location,
                                FnInstModel::BuiltIn(builtin_view(IntermediateBuiltIn::BuiltInFn(*fn_))),
                            ));
                        }
                    },
                    IntermediateExpression::IntermediateValue(IntermediateValue::IntermediateMemory(memory)) => {
                        if fn_defs.contains_key(&memory.location.0) {
                            fn_defs.insert(location, FnInst::Ref(memory.location));
                            proof {
                                assert(fn_defs_view(fn_defs@) =~= m0.insert(location, FnInstModel::Ref(memory.location.0)));
                            }
                        }
                    },
                    IntermediateExpression::IntermediateIf(if_) => {
                        proof {
                            crate::intermediate::lemma_block_view(if_.branches.0);
                            crate::intermediate::lemma_block_view(if_.branches.1);
                        }
                        Self::collect_fn_defs_from_statements(&if_.branches.0.statements, fn_defs);
                        Self::collect_fn_defs_from_statements(&if_.branches.1.statements, fn_defs);
                    },
                    IntermediateExpression::IntermediateMatch(match_) => {
                        proof {
                            crate::intermediate::lemma_match_view(*match_);
                        }
                        let ghost bs = branches_view(match_.branches@);
                        let mut j: usize = 0;
                        proof {
                            assert(bs.take(0) =~= Seq::<BranchModel>::empty());
                        }
                        while j < match_.branches.len()
                            invariant
                                j <= match_.branches.len(),
                                bs == branches_view(match_.branches@),
                                statement@.expression == ExpressionModel::Match(match_.subject@, bs),
                                fn_defs_view(fn_defs@) == collect_branches(m0, bs.take(j as int)),
                            decreases match_.branches.len() - j,
                        {
                            proof {
                                assert(bs.take(j + 1).drop_last() =~= bs.take(j as int));
                                assert(bs.take(j + 1).last() == bs[j as int]);
                                crate::compiler::lemma_brsize_prefix(bs, j + 1);
                                crate::intermediate::lemma_block_view(match_.branches@[j as int].block);
                            }
                            Self::collect_fn_defs_from_statements(&match_.branches[j].block.statements, fn_defs);
                            j = j + 1;
                        }
                        proof {
                            assert(bs.take(match_.branches.len() as int) =~= bs);
                        }
                    },
                    _ => {},
                }
            },
        }
    }

    /// Collects the function of each location assigned one in the statements,
    /// including those inside lambdas, conditionals and matches.
    pub fn collect_fn_defs_from_statements(statements: &Vec<IntermediateStatement>, fn_defs: &mut FnDefs)
        ensures
            fn_defs_view(final(fn_defs)@) == collect_statements(fn_defs_view(old(fn_defs)@), statements_view(statements@)),
        decreases stsize(statements_view(statements@)), 1nat,
    {
        let ghost st = statements_view(statements@);
        let ghost m0 = fn_defs_view(fn_defs@);
        let mut i: usize = 0;
        proof {
            assert(st.take(0) =~= Seq::<AssignmentModel>::empty());
        }
        while i < statements.len()
            invariant
                i <= statements.len(),
                st == statements_view(statements@),
                fn_defs_view(fn_defs@) == collect_statements(m0, st.take(i as int)),
            decreases statements.len() - i,
        {
            proof {
                assert(st.take(i + 1).drop_last() =~= st.take(i as int));
                assert(st.take(i + 1).last() == st[i as int]);
                crate::compiler::lemma_stsize_prefix(st, i + 1);
            }
            Self::collect_fn_defs_from_statement(&statements[i], fn_defs);
            i = i + 1;
        }
        proof {
            assert(st.take(statements.len() as int) =~= st);
        }
    }

    /// The lambda or built-in function that a location holds, following the
    /// locations it copies; `None` where the chain reaches a location that
    /// holds no function.
    pub fn get_root_fn(fn_defs: &FnDefs, location: &Location) -> (res: Option<RootFn>)
        requires
            ref_ends(fn_defs_view(fn_defs@), location.0),
        ensures
            match res {
                Some(RootFn::Lambda(l)) => root_fn(fn_defs_view(fn_defs@), location.0) == Some(FnInstModel::Lambda(l@)),
                Some(RootFn::BuiltIn(b)) => root_fn(fn_defs_view(fn_defs@), location.0)
                    == Some(FnInstModel::BuiltIn(builtin_view(IntermediateBuiltIn::BuiltInFn(b)))),
                None => root_fn(fn_defs_view(fn_defs@), location.0) is None,
            },
    {
        let ghost m = fn_defs_view(fn_defs@);
        let ghost r0 = location.0;
        let ghost n = ref_length(m, r0);
        let ghost mut k: nat = 0;
        let mut r = location.0;
        loop
            invariant
                m == fn_defs_view(fn_defs@),
                r0 == location.0,
                ref_ends(m, r0),
                n == ref_length(m, r0),
                ref_step(m, follow_ref(m, r0, n)) is None,
                r == follow_ref(m, r0, k),
                k <= n,
            decreases n - k,
        {
            match fn_defs.get(&r) {
                Some(FnInst::Lambda(lambda)) => {
                    proof {
                        assert(fn_defs@.contains_key(r));
                        assert(m[r] == FnInstModel::Lambda(lambda@));
                        lemma_ref_root(m, r0, k);
                        assert(ref_root(m, r0) == r);
                        assert(root_fn(m, r0) == Some(FnInstModel::Lambda(lambda@)));
                    }
                    let l = lambda.clone();
                    proof {
                        assert(l@ == lambda@);
                    }
                    return Some(RootFn::Lambda(l));
                },
                Some(FnInst::BuiltIn(fn_)) => {
                    proof {
                        lemma_ref_root(m, r0, k);
                    }
                    let copy = fn_.clone();
                    proof {
                        lemma_builtin_clone_view(copy, *fn_);
                    }
                    return Some(RootFn::BuiltIn(copy));
                },
                Some(FnInst::Ref(next)) => {
                    proof {
                        lemma_follow_ref_succ(m, r0, k);
                        if k == n {
                            assert(false);
                        }
                        k = k + 1;
                    }
                    r = next.0;
                },
                None => {
                    proof {
                        lemma_ref_root(m, r0, k);
                    }
                    return None;
                },
            }
        }
    }
}

} // verus!
