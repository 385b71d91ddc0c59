//! Allocators for the cycles of closures, and the slots of environments that
//! must hold weak references because they close such a cycle.

use vstd::prelude::*;
use vstd::string::StringExecFns;
use crate::atoms::Name;
use crate::machine::{
    Allocation, Declaration, Expression, ExpressionModel, IfStatement, MatchBranch, MatchStatement, Memory,
    Statement, StatementModel, TupleExpression, Value, ValueModel, lemma_if_view, lemma_match_statement_view,
    match_branch_view, memories_view, statements_view, allocation_fns_view, all_statements, nested_statements,
    branches_statements, some_statement, lemma_some_statement_add, lemma_some_statement_one,
};
use crate::weak_referrer::{
    ClosureCycles, WeakReferrer, glookup, graph_view, nbrs, tlookup, translation_view, lemma_tlookup_push,
    lemma_to_set_push, is_visited, graph_neighbors,
};

verus! {

// ---------------------------------------------------------------------------
// The functions of closures.

/// The name of the function of each closure, as the closure instantiations of
/// statements give them, later ones first, branches included.
pub open spec fn statement_names(m: Map<Seq<char>, Seq<char>>, s: StatementModel) -> Map<Seq<char>, Seq<char>>
    decreases s, 0nat,
{
    match s {
        StatementModel::Assignment(t, ExpressionModel::ClosureInstantiation(name, _)) => m.insert(t, name),
        StatementModel::If(_, a, b) => statements_names(statements_names(m, a), b),
        StatementModel::Match(_, _, bs, _) => branches_names(m, bs),
        _ => m,
    }
}

pub open spec fn statements_names(m: Map<Seq<char>, Seq<char>>, st: Seq<StatementModel>) -> Map<Seq<char>, Seq<char>>
    decreases st, 1nat,
{
    if st.len() == 0 {
        m
    } else {
        statement_names(statements_names(m, st.drop_last()), st.last())
    }
}

pub open spec fn branches_names(m: Map<Seq<char>, Seq<char>>, bs: Seq<(Option<Seq<char>>, Seq<StatementModel>)>) -> Map<Seq<char>, Seq<char>>
    decreases bs, 1nat,
{
    if bs.len() == 0 {
        m
    } else {
        statements_names(branches_names(m, bs.drop_last()), bs.last().1)
    }
}

/// Records the function of each closure that statements instantiate.
fn collect_names(statements: &Vec<Statement>, out: &mut Vec<(Memory, Name)>)
    ensures
        translation_view(final(out)@) == statements_names(translation_view(old(out)@), statements_view(statements@)),
    decreases statements_view(statements@), 1nat,
{
    let ghost st = statements_view(statements@);
    let ghost m0 = translation_view(out@);
    let mut i: usize = 0;
    proof {
        assert(st.take(0) =~= Seq::<StatementModel>::empty());
    }
    while i < statements.len()
        invariant
            i <= statements.len(),
            st == statements_view(statements@),
            translation_view(out@) == statements_names(m0, st.take(i as int)),
        decreases statements.len() - i,
    {
        proof {
            assert(st.take(i + 1).drop_last() =~= st.take(i as int));
            assert(st.take(i + 1).last() == st[i as int]);
            assert(st[i as int] == statements@[i as int]@);
        }
        let ghost m1 = translation_view(out@);
        match &statements[i] {
            Statement::Assignment(a) => {
                match &a.value {
                    Expression::ClosureInstantiation(c) => {
                        let ghost o = out@;
                        out.push((a.target.clone(), c.name.clone()));
                        proof {
                            assert forall|q: Seq<char>| #[trigger] tlookup(out@, q)
                                == if a.target@ == q { Some(c.name@) } else { tlookup(o, q) } by {
                                lemma_tlookup_push(o, out@.last(), q);
                            }
                            assert(translation_view(out@) =~= m1.insert(a.target@, c.name@));
                        }
                    },
                    _ => {},
                }
                proof {
                    assert(translation_view(out@) == statement_names(m1, st[i as int]));
                }
            },
            Statement::IfStatement(s) => {
                proof {
                    lemma_if_view(*s);
                    assert(decreases_to!(st => st[i as int]));
                    assert(decreases_to!(st[i as int] => st[i as int]->If_1));
                    assert(decreases_to!(st[i as int] => st[i as int]->If_2));
                }
                collect_names(&s.branches.0, out);
                collect_names(&s.branches.1, out);
                proof {
                    assert(translation_view(out@) == statement_names(m1, st[i as int]));
                }
            },
            Statement::MatchStatement(m) => {
                proof {
                    lemma_match_statement_view(*m);
                }
                let ghost bs = st[i as int]->Match_2;
                let mut j: usize = 0;
                proof {
                    assert(bs.take(0) =~= Seq::<(Option<Seq<char>>, Seq<StatementModel>)>::empty());
                }
                while j < m.branches.len()
                    invariant
                        j <= m.branches.len(),
                        bs == m.branches@.map_values(|b: MatchBranch| match_branch_view(b)),
                        bs == st[i as int]->Match_2,
                        st[i as int] is Match,
                        st == statements_view(statements@),
                        i < statements.len(),
                        translation_view(out@) == branches_names(m1, bs.take(j as int)),
                    decreases m.branches.len() - j,
                {
                    proof {
                        assert(bs.take(j + 1).drop_last() =~= bs.take(j as int));
                        assert(bs.take(j + 1).last() == bs[j as int]);
                        assert(bs[j as int] == match_branch_view(m.branches@[j as int]));
                        assert(decreases_to!(st => st[i as int]));
                        assert(decreases_to!(st[i as int] => st[i as int]->Match_2));
                        assert(decreases_to!(bs => bs[j as int]));
                        assert(decreases_to!(bs[j as int] => bs[j as int].1));
                    }
                    collect_names(&m.branches[j].statements, out);
                    j = j + 1;
                }
                proof {
                    assert(bs.take(m.branches.len() as int) =~= bs);
                }
            },
            _ => {},
        }
        proof {
            assert(translation_view(out@) == statement_names(m1, st[i as int]));
        }
        i = i + 1;
    }
    proof {
        assert(st.take(statements.len() as int) =~= st);
    }
}

// ---------------------------------------------------------------------------
// Allocators and weak slots, as models.

/// The function of a closure, empty where no instantiation names one.
pub open spec fn closure_name(names: Map<Seq<char>, Seq<char>>, m: Seq<char>) -> Seq<char> {
    if names.contains_key(m) { names[m] } else { Seq::empty() }
}

/// The name of the allocator of a cycle, after its first closure.
pub open spec fn allocator_name(first: Seq<char>) -> Seq<char> {
    "Allocator"@ + first
}

/// The memory that holds the allocator of a cycle, after its first closure.
pub open spec fn allocator_memory(first: Seq<char>) -> Seq<char> {
    "allocator_"@ + first
}

/// The allocation of a cycle: an allocator named after its first closure that
/// holds each closure of the cycle with the name of its function.
pub open spec fn cycle_allocation(cycle: Seq<Seq<char>>, names: Map<Seq<char>, Seq<char>>) -> StatementModel {
    StatementModel::Allocation(
        allocator_name(cycle[0]),
        cycle.map_values(|m: Seq<char>| (m, closure_name(names, m))),
        allocator_memory(cycle[0]),
    )
}

/// A statement with the allocation it needs, given the closures whose cycles
/// are not allocated yet: the first declaration of a closure of a cycle of more
/// than one closure comes after the allocation of that cycle, and marks the
/// whole cycle as allocated. Branches start with every cycle unallocated.
pub open spec fn allocate_statement(
    s: StatementModel,
    cycles: Map<Seq<char>, Seq<Seq<char>>>,
    names: Map<Seq<char>, Seq<char>>,
    pending: Set<Seq<char>>,
) -> (Seq<StatementModel>, Set<Seq<char>>)
    decreases s, 0nat,
{
    match s {
        StatementModel::Declaration(_, m) => if pending.contains(m) {
            let cycle = nbrs(cycles, m);
            let rest = pending.difference(cycle.to_set());
            if cycle.len() > 1 { (seq![cycle_allocation(cycle, names), s], rest) } else { (seq![s], rest) }
        } else {
            (seq![s], pending)
        },
        StatementModel::If(c, a, b) => (seq![StatementModel::If(c, with_allocations(a, cycles, names), with_allocations(b, cycles, names))], pending),
        StatementModel::Match(e, ty, bs, aux) => (seq![StatementModel::Match(e, ty, allocate_branches(bs, cycles, names), aux)], pending),
        _ => (seq![s], pending),
    }
}

pub open spec fn allocate_statements(
    st: Seq<StatementModel>,
    cycles: Map<Seq<char>, Seq<Seq<char>>>,
    names: Map<Seq<char>, Seq<char>>,
    pending: Set<Seq<char>>,
) -> (Seq<StatementModel>, Set<Seq<char>>)
    decreases st, 1nat,
{
    if st.len() == 0 {
        (Seq::empty(), pending)
    } else {
        let before = allocate_statements(st.drop_last(), cycles, names, pending);
        let last = allocate_statement(st.last(), cycles, names, before.1);
        (before.0 + last.0, last.1)
    }
}

pub open spec fn allocate_branches(
    bs: Seq<(Option<Seq<char>>, Seq<StatementModel>)>,
    cycles: Map<Seq<char>, Seq<Seq<char>>>,
    names: Map<Seq<char>, Seq<char>>,
) -> Seq<(Option<Seq<char>>, Seq<StatementModel>)>
    decreases bs, 1nat,
{
    if bs.len() == 0 {
        Seq::empty()
    } else {
        allocate_branches(bs.drop_last(), cycles, names).push((bs.last().0, with_allocations(bs.last().1, cycles, names)))
    }
}

/// Statements with the allocations their cycles need, every cycle unallocated at the start.
pub open spec fn with_allocations(
    st: Seq<StatementModel>,
    cycles: Map<Seq<char>, Seq<Seq<char>>>,
    names: Map<Seq<char>, Seq<char>>,
) -> Seq<StatementModel>
    decreases st, 2nat,
{
    allocate_statements(st, cycles, names, cycles.dom()).0
}

/// Whether a statement makes slot `i` of the environment of function `n` weak:
/// a tuple assigned to a memory that is the environment of `n` holds, at
/// position `i`, a closure that has a cycle.
pub open spec fn statement_weak(
    s: StatementModel,
    cycles: Map<Seq<char>, Seq<Seq<char>>>,
    envs: Map<Seq<char>, Seq<char>>,
    n: Seq<char>,
    i: nat,
) -> bool
    decreases s, 0nat,
{
    match s {
        StatementModel::Assignment(t, ExpressionModel::Tuple(vs)) => envs.contains_key(t) && envs[t] == n && i < vs.len()
            && (vs[i as int] matches ValueModel::Memory(m) && cycles.contains_key(m)),
        StatementModel::If(_, a, b) => statements_weak(a, cycles, envs, n, i) || statements_weak(b, cycles, envs, n, i),
        StatementModel::Match(_, _, bs, _) => branches_weak(bs, cycles, envs, n, i),
        _ => false,
    }
}

pub open spec fn statements_weak(
    st: Seq<StatementModel>,
    cycles: Map<Seq<char>, Seq<Seq<char>>>,
    envs: Map<Seq<char>, Seq<char>>,
    n: Seq<char>,
    i: nat,
) -> bool
    decreases st, 1nat,
{
    if st.len() == 0 {
        false
    } else {
        statements_weak(st.drop_last(), cycles, envs, n, i) || statement_weak(st.last(), cycles, envs, n, i)
    }
}

pub open spec fn branches_weak(
    bs: Seq<(Option<Seq<char>>, Seq<StatementModel>)>,
    cycles: Map<Seq<char>, Seq<Seq<char>>>,
    envs: Map<Seq<char>, Seq<char>>,
    n: Seq<char>,
    i: nat,
) -> bool
    decreases bs, 1nat,
{
    if bs.len() == 0 {
        false
    } else {
        branches_weak(bs.drop_last(), cycles, envs, n, i) || statements_weak(bs.last().1, cycles, envs, n, i)
    }
}

/// The slots of a list, as names and numbers.
pub open spec fn slots_view(w: Seq<(Name, usize)>) -> Seq<(Seq<char>, nat)> {
    w.map_values(|p: (Name, usize)| (p.0@, p.1 as nat))
}

// ---------------------------------------------------------------------------
// Adding the allocations.

proof fn lemma_add_contains<A>(a: Seq<A>, b: Seq<A>, x: A)
    ensures
        (a + b).contains(x) <==> (a.contains(x) || b.contains(x)),
{
    if a.contains(x) {
        let t = choose|t: int| 0 <= t < a.len() && a[t] == x;
        assert((a + b)[t] == x);
    }
    if b.contains(x) {
        let t = choose|t: int| 0 <= t < b.len() && b[t] == x;
        assert((a + b)[a.len() + t] == x);
    }
    if (a + b).contains(x) {
        let t = choose|t: int| 0 <= t < (a + b).len() && (a + b)[t] == x;
        if t < a.len() {
            assert(a[t] == x);
        } else {
            assert(b[t - a.len()] == x);
        }
    }
}

/// The name recorded last for a memory, if any.
fn find_name(t: &Vec<(Memory, Name)>, k: &Memory) -> (res: Option<String>)
    ensures
        res is Some <==> tlookup(t@, k@) is Some,
        res is Some ==> tlookup(t@, k@) == Some(res->0@),
{
    let mut i: usize = t.len();
    proof {
        assert(t@.take(i as int) =~= t@);
    }
    while i > 0
        invariant
            i <= t.len(),
            tlookup(t@, k@) == tlookup(t@.take(i as int), k@),
        decreases i,
    {
        proof {
            assert(t@.take(i as int).drop_last() =~= t@.take(i - 1));
            assert(t@.take(i as int).last() == t@[i - 1]);
        }
        if t[i - 1].0.0 == k.0 {
            return Some(t[i - 1].1.clone());
        }
        i = i - 1;
    }
    None
}

/// Whether a memory has a cycle in a table of cycles.
fn has_cycle(g: &Vec<(Memory, Vec<Memory>)>, k: &Memory) -> (res: bool)
    ensures
        res == (glookup(g@, k@) is Some),
{
    let mut i: usize = g.len();
    proof {
        assert(g@.take(i as int) =~= g@);
    }
    while i > 0
        invariant
            i <= g.len(),
            glookup(g@, k@) == glookup(g@.take(i as int), k@),
        decreases i,
    {
        proof {
            assert(g@.take(i as int).drop_last() =~= g@.take(i - 1));
            assert(g@.take(i as int).last() == g@[i - 1]);
        }
        if g[i - 1].0.0 == k.0 {
            return true;
        }
        i = i - 1;
    }
    false
}

/// The allocation of a cycle of closures.
fn make_allocation(cycle: &Vec<Memory>, names: &Vec<(Memory, Name)>) -> (res: Allocation)
    requires
        cycle.len() > 0,
    ensures
        Statement::Allocation(res)@ == cycle_allocation(memories_view(cycle@), translation_view(names@)),
{
    let ghost cv = memories_view(cycle@);
    let ghost nv = translation_view(names@);
    let mut name = String::from_str("Allocator");
    name.append(cycle[0].0.as_str());
    let mut target = String::from_str("allocator_");
    target.append(cycle[0].0.as_str());
    let mut fns: Vec<(Memory, Name)> = Vec::new();
    let mut j: usize = 0;
    while j < cycle.len()
        invariant
            j <= cycle.len(),
            cv == memories_view(cycle@),
            nv == translation_view(names@),
            allocation_fns_view(fns@) == cv.take(j as int).map_values(|m: Seq<char>| (m, closure_name(nv, m))),
        decreases cycle.len() - j,
    {
        let n = match find_name(names, &cycle[j]) {
            Some(n) => {
                proof {
                    assert(nv.contains_key(cycle@[j as int]@));
                }
                n
            },
            None => {
                proof {
                    assert(!nv.contains_key(cycle@[j as int]@));
                }
                String::new()
            },
        };
        let ghost before = fns@;
        proof {
            assert(cv[j as int] == cycle@[j as int]@);
            assert(n@ == closure_name(nv, cv[j as int]));
        }
        fns.push((cycle[j].clone(), n));
        proof {
            assert(allocation_fns_view(fns@) =~= allocation_fns_view(before).push((cv[j as int], closure_name(nv, cv[j as int]))));
            assert(allocation_fns_view(fns@) =~= cv.take(j + 1).map_values(|m: Seq<char>| (m, closure_name(nv, m))));
        }
        j = j + 1;
    }
    proof {
        assert(cv.take(cycle.len() as int) =~= cv);
        assert(cv[0] == cycle@[0]@);
    }
    Allocation { name, fns, target: Memory(target) }
}

impl WeakReferrer {
    /// Adds to statements the allocators that their cycles of closures need,
    /// and finds the slots of environments that must hold weak references.
    /// Before the first declaration of a closure of a cycle of more than one
    /// closure, an allocation of the cycle is added, once per cycle and block;
    /// the allocation names its allocator `Allocator` and its memory
    /// `allocator_` after the cycle's first closure, and pairs each closure
    /// with the function that the statements instantiate it with. A slot `i`
    /// of function `n` is weak when a tuple assigned to an environment of `n`
    /// holds, at position `i`, a closure that has a cycle.
    pub fn add_allocations(&self, statements: Vec<Statement>, closure_cycles: &ClosureCycles) -> (res: (Vec<Statement>, Vec<(Name, usize)>))
        ensures
            statements_view(res.0@) == with_allocations(
                statements_view(statements@),
                graph_view(closure_cycles.cycles@),
                statements_names(Map::empty(), statements_view(statements@)),
            ),
            forall|n: Seq<char>, i: nat| #[trigger] slots_view(res.1@).contains((n, i))
                <==> statements_weak(statements_view(statements@), graph_view(closure_cycles.cycles@),
                    translation_view(closure_cycles.fn_translation@), n, i),
    {
        let mut names: Vec<(Memory, Name)> = Vec::new();
        proof {
            assert(translation_view(names@) =~= Map::<Seq<char>, Seq<char>>::empty());
        }
        collect_names(&statements, &mut names);
        self.allocate(statements, closure_cycles, &names)
    }

    fn allocate(&self, statements: Vec<Statement>, cc: &ClosureCycles, names: &Vec<(Memory, Name)>)
        -> (res: (Vec<Statement>, Vec<(Name, usize)>))
        ensures
            statements_view(res.0@) == with_allocations(statements_view(statements@), graph_view(cc.cycles@), translation_view(names@)),
            forall|n: Seq<char>, i: nat| #[trigger] slots_view(res.1@).contains((n, i))
                <==> statements_weak(statements_view(statements@), graph_view(cc.cycles@), translation_view(cc.fn_translation@), n, i),
        decreases statements_view(statements@),
    {
        let ghost st = statements_view(statements@);
        let ghost cv = graph_view(cc.cycles@);
        let ghost nv = translation_view(names@);
        let ghost tv = translation_view(cc.fn_translation@);
        let mut pending: Vec<Memory> = Vec::new();
        let mut t: usize = 0;
        while t < cc.cycles.len()
            invariant
                t <= cc.cycles.len(),
                forall|k: Seq<char>| #[trigger] memories_view(pending@).to_set().contains(k) <==> glookup(cc.cycles@.take(t as int), k) is Some,
            decreases cc.cycles.len() - t,
        {
            let ghost pb = memories_view(pending@);
            pending.push(cc.cycles[t].0.clone());
            proof {
                assert(memories_view(pending@) =~= pb.push(cc.cycles@[t as int].0@));
                lemma_to_set_push(pb, cc.cycles@[t as int].0@);
                assert(cc.cycles@.take(t + 1) =~= cc.cycles@.take(t as int).push(cc.cycles@[t as int]));
                assert forall|k: Seq<char>| #[trigger] glookup(cc.cycles@.take(t + 1), k) is Some
                    <==> (glookup(cc.cycles@.take(t as int), k) is Some || k == cc.cycles@[t as int].0@) by {
                    crate::weak_referrer::lemma_glookup_push(cc.cycles@.take(t as int), cc.cycles@[t as int], k);
                }
            }
            t = t + 1;
        }
        proof {
            assert(cc.cycles@.take(cc.cycles.len() as int) =~= cc.cycles@);
            assert(memories_view(pending@).to_set() =~= cv.dom());
            assert(st.take(0) =~= Seq::<StatementModel>::empty());
        }
        let mut out: Vec<Statement> = Vec::new();
        let mut weak: Vec<(Name, usize)> = Vec::new();
        proof {
            assert(st.len() == statements.len());
        }
        let mut rest = statements;
        let mut i: usize = 0;
        proof {
            assert(st.skip(0) =~= st);
            assert(statements_view(out@) =~= Seq::<StatementModel>::empty());
        }
        while rest.len() > 0
            invariant
                st == statements_view(statements@),
                cv == graph_view(cc.cycles@),
                nv == translation_view(names@),
                tv == translation_view(cc.fn_translation@),
                i <= st.len(),
                st.len() <= usize::MAX,
                statements_view(rest@) == st.skip(i as int),
                statements_view(out@) == allocate_statements(st.take(i as int), cv, nv, cv.dom()).0,
                memories_view(pending@).to_set() == allocate_statements(st.take(i as int), cv, nv, cv.dom()).1,
                forall|n: Seq<char>, k: nat| #[trigger] slots_view(weak@).contains((n, k))
                    <==> statements_weak(st.take(i as int), cv, tv, n, k),
            decreases rest.len(),
        {
            let ghost r0 = rest@;
            proof {
                assert(statements_view(r0).len() == r0.len());
                assert(st.skip(i as int).len() == r0.len());
            }
            let s = rest.remove(0);
            let ghost sv = st[i as int];
            let ghost p0 = memories_view(pending@).to_set();
            let ghost o0 = statements_view(out@);
            let ghost w0 = weak@;
            proof {
                assert forall|nn: Seq<char>, kk: nat| #[trigger] slots_view(w0).contains((nn, kk))
                    <==> statements_weak(st.take(i as int), cv, tv, nn, kk) by {
                }
                assert(st.skip(i as int)[0] == sv);
                assert(statements_view(r0)[0] == s@);
                assert forall|k: int| 0 <= k < rest@.len() implies #[trigger] statements_view(rest@)[k] == st.skip(i + 1)[k] by {
                    assert(rest@[k] == r0[k + 1]);
                    assert(statements_view(r0)[k + 1] == st.skip(i as int)[k + 1]);
                }
                assert(statements_view(rest@) =~= st.skip(i + 1));
                assert(st.take(i + 1).drop_last() =~= st.take(i as int));
                assert(st.take(i + 1).last() == sv);
                assert(decreases_to!(st => st[i as int]));
            }
            let ghost step = allocate_statement(sv, cv, nv, p0);
            let ghost sg = s;
            proof {
                assert(sg@ == sv);
            }
            match s {
                Statement::Declaration(d) => {
                    if is_visited(&pending, &d.memory) {
                        let cycle = graph_neighbors(&cc.cycles, &d.memory);
                        let ghost cyc = memories_view(cycle@);
                        let mut kept: Vec<Memory> = Vec::new();
                        let mut j: usize = 0;
                        let ghost pv = memories_view(pending@);
                        proof {
                            assert(memories_view(kept@).to_set() =~= pv.take(0).to_set().difference(cyc.to_set()));
                        }
                        while j < pending.len()
                            invariant
                                j <= pending.len(),
                                pv == memories_view(pending@),
                                cyc == memories_view(cycle@),
                                memories_view(kept@).to_set() == pv.take(j as int).to_set().difference(cyc.to_set()),
                            decreases pending.len() - j,
                        {
                            let ghost kb = memories_view(kept@);
                            proof {
                                assert(pv.take(j + 1) =~= pv.take(j as int).push(pv[j as int]));
                                lemma_to_set_push(pv.take(j as int), pv[j as int]);
                                assert(pv[j as int] == pending@[j as int]@);
                            }
                            if !is_visited(&cycle, &pending[j]) {
                                kept.push(pending[j].clone());
                                proof {
                                    assert(memories_view(kept@) =~= kb.push(pv[j as int]));
                                    lemma_to_set_push(kb, pv[j as int]);
                                    assert(memories_view(kept@).to_set() =~= pv.take(j + 1).to_set().difference(cyc.to_set()));
                                }
                            } else {
                                proof {
                                    assert(memories_view(kept@).to_set() =~= pv.take(j + 1).to_set().difference(cyc.to_set()));
                                }
                            }
                            j = j + 1;
                        }
                        proof {
                            assert(pv.take(pending.len() as int) =~= pv);
                        }
                        pending = kept;
                        if cycle.len() > 1 {
                            let allocation = make_allocation(&cycle, names);
                            out.push(Statement::Allocation(allocation));
                        }
                        let ghost o1 = statements_view(out@);
                        out.push(Statement::Declaration(d));
                        proof {
                            assert(statements_view(out@) =~= o1.push(sv));
                            assert(statements_view(out@) =~= o0 + step.0);
                        }
                    } else {
                        out.push(Statement::Declaration(d));
                        proof {
                            assert(statements_view(out@) =~= o0 + step.0);
                        }
                    }
                    proof {
                        assert(sv is Declaration);
                        assert forall|n: Seq<char>, k: nat| #[trigger] slots_view(weak@).contains((n, k))
                            <==> statements_weak(st.take(i + 1), cv, tv, n, k) by {
                            assert(!statement_weak(sv, cv, tv, n, k));
                        }
                    }
                },
                Statement::Assignment(a) => {
                    let ghost ws = slots_view(weak@);
                    proof {
                        assert(ws == slots_view(w0));
                        assert(sv == StatementModel::Assignment(a.target@, a.value@));
                    }
                    if let Expression::TupleExpression(TupleExpression(vs)) = &a.value {
                        let ghost vm = vs@.map_values(|v: Value| v@);
                        proof {
                            assert(a.value@ == ExpressionModel::Tuple(vm));
                        }
                        match find_name(&cc.fn_translation, &a.target) {
                            Some(n) => {
                                proof {
                                    assert(tv.contains_key(a.target@) && tv[a.target@] == n@);
                                }
                                let mut k: usize = 0;
                                while k < vs.len()
                                    invariant
                                        k <= vs.len(),
                                        vm == vs@.map_values(|v: Value| v@),
                                        cv == graph_view(cc.cycles@),
                                        forall|nn: Seq<char>, ii: nat| #[trigger] slots_view(weak@).contains((nn, ii))
                                            <==> (ws.contains((nn, ii)) || (nn == n@ && ii < k
                                                && (vm[ii as int] matches ValueModel::Memory(m) && cv.contains_key(m)))),
                                    decreases vs.len() - k,
                                {
                                    let ghost wb = weak@;
                                    if let Value::Memory(m) = &vs[k] {
                                        if has_cycle(&cc.cycles, m) {
                                            weak.push((n.clone(), k));
                                            proof {
                                                assert(slots_view(weak@) =~= slots_view(wb).push((n@, k as nat)));
                                                assert forall|nn: Seq<char>, ii: nat| #[trigger] slots_view(weak@).contains((nn, ii))
                                                    <==> (ws.contains((nn, ii)) || (nn == n@ && ii < k + 1
                                                        && (vm[ii as int] matches ValueModel::Memory(m) && cv.contains_key(m)))) by {
                                                    lemma_add_contains(slots_view(wb), seq![(n@, k as nat)], (nn, ii));
                                                    assert(slots_view(wb).push((n@, k as nat)) =~= slots_view(wb) + seq![(n@, k as nat)]);
                                                    if seq![(n@, k as nat)].contains((nn, ii)) {
                                                        assert(seq![(n@, k as nat)][0] == (nn, ii));
                                                    }
                                                    if nn == n@ && ii == k {
                                                        assert(seq![(n@, k as nat)][0] == (nn, ii));
                                                    }
                                                }
                                            }
                                        }
                                    }
                                    k = k + 1;
                                }
                                proof {
                                    assert forall|nn: Seq<char>, ii: nat| #[trigger] slots_view(weak@).contains((nn, ii))
                                        <==> (ws.contains((nn, ii)) || statement_weak(sv, cv, tv, nn, ii)) by {
                                    }
                                }
                            },
                            None => {
                                proof {
                                    assert(!tv.contains_key(a.target@));
                                    assert forall|nn: Seq<char>, ii: nat| #[trigger] slots_view(weak@).contains((nn, ii))
                                        <==> (ws.contains((nn, ii)) || statement_weak(sv, cv, tv, nn, ii)) by {
                                    }
                                }
                            },
                        }
                    } else {
                        proof {
                            assert(!(a.value@ is Tuple));
                            assert forall|nn: Seq<char>, ii: nat| #[trigger] slots_view(weak@).contains((nn, ii))
                                <==> (ws.contains((nn, ii)) || statement_weak(sv, cv, tv, nn, ii)) by {
                            }
                        }
                    }
                    out.push(Statement::Assignment(a));
                    proof {
                        assert(statements_view(out@) =~= o0 + step.0);
                        assert forall|nn: Seq<char>, kk: nat| #[trigger] slots_view(weak@).contains((nn, kk))
                            <==> statements_weak(st.take(i + 1), cv, tv, nn, kk) by {
                            assert(ws.contains((nn, kk)) == slots_view(w0).contains((nn, kk)));
                        }
                    }
                },
                Statement::IfStatement(ifs) => {
                    proof {
                        lemma_if_view(ifs);
                        assert(decreases_to!(sv => sv->If_1));
                        assert(decreases_to!(sv => sv->If_2));
                    }
                    let IfStatement { condition, branches } = ifs;
                    let (b0, b1) = branches;
                    let ghost bv0 = statements_view(b0@);
                    let ghost bv1 = statements_view(b1@);
                    proof {
                        assert(sv->If_1 == bv0);
                        assert(sv->If_2 == bv1);
                    }
                    let (r0, w0s) = self.allocate(b0, cc, names);
                    let (r1, w1s) = self.allocate(b1, cc, names);
                    let mut w0s = w0s;
                    let mut w1s = w1s;
                    let ghost (wa, wb, wc) = (weak@, w0s@, w1s@);
                    weak.append(&mut w0s);
                    weak.append(&mut w1s);
                    let new_if = IfStatement { condition, branches: (r0, r1) };
                    proof {
                        lemma_if_view(new_if);
                    }
                    out.push(Statement::IfStatement(new_if));
                    proof {
                        assert(statements_view(out@) =~= o0 + step.0);
                        assert(slots_view(weak@) =~= slots_view(wa) + slots_view(wb) + slots_view(wc));
                        assert forall|nn: Seq<char>, kk: nat| #[trigger] slots_view(weak@).contains((nn, kk))
                            <==> statements_weak(st.take(i + 1), cv, tv, nn, kk) by {
                            lemma_add_contains(slots_view(wa) + slots_view(wb), slots_view(wc), (nn, kk));
                            lemma_add_contains(slots_view(wa), slots_view(wb), (nn, kk));
                            assert(slots_view(wa).contains((nn, kk)) == slots_view(w0).contains((nn, kk)));
                            assert(slots_view(wb).contains((nn, kk)) == statements_weak(bv0, cv, tv, nn, kk));
                            assert(slots_view(wc).contains((nn, kk)) == statements_weak(bv1, cv, tv, nn, kk));
                            assert(statement_weak(sv, cv, tv, nn, kk) == (statements_weak(bv0, cv, tv, nn, kk) || statements_weak(bv1, cv, tv, nn, kk)));
                        }
                    }
                },
                Statement::MatchStatement(ms) => {
                    proof {
                        lemma_match_statement_view(ms);
                    }
                    let MatchStatement { expression, branches, auxiliary_memory } = ms;
                    let ghost bs = branches@.map_values(|b: MatchBranch| match_branch_view(b));
                    let mut brest = branches;
                    let mut nb: Vec<MatchBranch> = Vec::new();
                    let mut j: usize = 0;
                    proof {
                        assert(bs.len() == brest.len());
                        assert(bs.skip(0) =~= bs);
                        assert(bs.take(0) =~= Seq::<(Option<Seq<char>>, Seq<StatementModel>)>::empty());
                        assert(nb@.map_values(|b: MatchBranch| match_branch_view(b)) =~= allocate_branches(bs.take(0), cv, nv));
                    }
                    while brest.len() > 0
                        invariant
                            j <= bs.len(),
                            bs.len() <= usize::MAX,
                            j + brest.len() == bs.len(),
                            bs == sv->Match_2,
                            sv is Match,
                            decreases_to!(st => sv),
                            cv == graph_view(cc.cycles@),
                            nv == translation_view(names@),
                            tv == translation_view(cc.fn_translation@),
                            st == statements_view(statements@),
                            brest@.map_values(|b: MatchBranch| match_branch_view(b)) == bs.skip(j as int),
                            nb@.map_values(|b: MatchBranch| match_branch_view(b)) == allocate_branches(bs.take(j as int), cv, nv),
                            forall|nn: Seq<char>, kk: nat| #[trigger] slots_view(weak@).contains((nn, kk))
                                <==> (slots_view(w0).contains((nn, kk)) || branches_weak(bs.take(j as int), cv, tv, nn, kk)),
                        decreases brest.len(),
                    {
                        let ghost br0 = brest@;
                        proof {
                            assert(br0.map_values(|b: MatchBranch| match_branch_view(b)).len() == br0.len());
                            assert(bs.skip(j as int).len() == br0.len());
                        }
                        let b = brest.remove(0);
                        proof {
                            assert(bs.skip(j as int)[0] == bs[j as int]);
                            assert(br0.map_values(|b: MatchBranch| match_branch_view(b))[0] == match_branch_view(b));
                            let ghost bm = brest@.map_values(|b: MatchBranch| match_branch_view(b));
                            assert forall|k: int| 0 <= k < brest@.len() implies #[trigger] bm[k] == bs.skip(j + 1)[k] by {
                                assert(brest@[k] == br0[k + 1]);
                                assert(br0.map_values(|b: MatchBranch| match_branch_view(b))[k + 1] == bs.skip(j as int)[k + 1]);
                            }
                            assert(bm =~= bs.skip(j + 1));
                            assert(bs.take(j + 1).drop_last() =~= bs.take(j as int));
                            assert(bs.take(j + 1).last() == bs[j as int]);
                            assert(decreases_to!(sv => sv->Match_2));
                            assert(decreases_to!(bs => bs[j as int]));
                            assert(decreases_to!(bs[j as int] => bs[j as int].1));
                        }
                        let MatchBranch { target, statements: bst } = b;
                        let (r, ws) = self.allocate(bst, cc, names);
                        let mut ws = ws;
                        let ghost (wa, wb) = (weak@, ws@);
                        weak.append(&mut ws);
                        let ghost nb0 = nb@;
                        nb.push(MatchBranch { target, statements: r });
                        proof {
                            assert(nb@.map_values(|b: MatchBranch| match_branch_view(b))
                                =~= nb0.map_values(|b: MatchBranch| match_branch_view(b)).push(match_branch_view(nb@.last())));
                            assert(slots_view(weak@) =~= slots_view(wa) + slots_view(wb));
                            assert forall|nn: Seq<char>, kk: nat| #[trigger] slots_view(weak@).contains((nn, kk))
                                <==> (slots_view(w0).contains((nn, kk)) || branches_weak(bs.take(j + 1), cv, tv, nn, kk)) by {
                                lemma_add_contains(slots_view(wa), slots_view(wb), (nn, kk));
                            }
                        }
                        j = j + 1;
                    }
                    proof {
                        assert(bs.skip(j as int).len() == 0);
                        assert(bs.take(j as int) =~= bs);
                    }
                    let new_match = MatchStatement { expression, branches: nb, auxiliary_memory };
                    proof {
                        lemma_match_statement_view(new_match);
                    }
                    out.push(Statement::MatchStatement(new_match));
                    proof {
                        assert(statements_view(out@) =~= o0 + step.0);
                        assert forall|nn: Seq<char>, kk: nat| #[trigger] slots_view(weak@).contains((nn, kk))
                            <==> statements_weak(st.take(i + 1), cv, tv, nn, kk) by {
                            assert(statement_weak(sv, cv, tv, nn, kk) == branches_weak(bs, cv, tv, nn, kk));
                            assert(slots_view(w0).contains((nn, kk)) == statements_weak(st.take(i as int), cv, tv, nn, kk));
                        }
                    }
                },
                Statement::Await(x) => {
                    out.push(Statement::Await(x));
                    proof {
                        assert(statements_view(out@) =~= o0 + step.0);
                        assert forall|nn: Seq<char>, kk: nat| #[trigger] slots_view(weak@).contains((nn, kk))
                            <==> statements_weak(st.take(i + 1), cv, tv, nn, kk) by {
                            assert(!statement_weak(sv, cv, tv, nn, kk));
                        }
                    }
                },
                Statement::Allocation(x) => {
                    out.push(Statement::Allocation(x));
                    proof {
                        assert(statements_view(out@) =~= o0 + step.0);
                        assert forall|nn: Seq<char>, kk: nat| #[trigger] slots_view(weak@).contains((nn, kk))
                            <==> statements_weak(st.take(i + 1), cv, tv, nn, kk) by {
                            assert(!statement_weak(sv, cv, tv, nn, kk));
                        }
                    }
                },
            }
            i = i + 1;
        }
        proof {
            assert(st.skip(i as int).len() == 0);
            assert(st.take(i as int) =~= st);
        }
        (out, weak)
    }
}


// ---------------------------------------------------------------------------
// Which slots are weak, stated over every nested statement.

/// Whether a statement assigns to an environment of function `n` a tuple that
/// holds, at position `i`, a closure that has a cycle.
pub open spec fn fills_weak_slot(
    cycles: Map<Seq<char>, Seq<Seq<char>>>,
    envs: Map<Seq<char>, Seq<char>>,
    n: Seq<char>,
    i: nat,
) -> spec_fn(StatementModel) -> bool {
    |s: StatementModel| match s {
        StatementModel::Assignment(t, ExpressionModel::Tuple(vs)) => envs.contains_key(t) && envs[t] == n
            && i < vs.len() && (vs[i as int] matches ValueModel::Memory(m) && cycles.contains_key(m)),
        _ => false,
    }
}

proof fn lemma_statement_weak_nested(
    s: StatementModel,
    cycles: Map<Seq<char>, Seq<Seq<char>>>,
    envs: Map<Seq<char>, Seq<char>>,
    n: Seq<char>,
    i: nat,
)
    ensures
        statement_weak(s, cycles, envs, n, i) == some_statement(nested_statements(s), fills_weak_slot(cycles, envs, n, i)),
    decreases s, 0nat,
{
    let p = fills_weak_slot(cycles, envs, n, i);
    lemma_some_statement_one(s, p);
    match s {
        StatementModel::If(_, a, b) => {
            lemma_statements_weak_nested(a, cycles, envs, n, i);
            lemma_statements_weak_nested(b, cycles, envs, n, i);
            lemma_some_statement_add(seq![s], all_statements(a), p);
            lemma_some_statement_add(seq![s] + all_statements(a), all_statements(b), p);
        },
        StatementModel::Match(_, _, bs, _) => {
            lemma_branches_weak_nested(bs, cycles, envs, n, i);
            lemma_some_statement_add(seq![s], branches_statements(bs), p);
        },
        _ => {},
    }
}

proof fn lemma_statements_weak_nested(
    st: Seq<StatementModel>,
    cycles: Map<Seq<char>, Seq<Seq<char>>>,
    envs: Map<Seq<char>, Seq<char>>,
    n: Seq<char>,
    i: nat,
)
    ensures
        statements_weak(st, cycles, envs, n, i) == some_statement(all_statements(st), fills_weak_slot(cycles, envs, n, i)),
    decreases st, 1nat,
{
    if st.len() > 0 {
        lemma_statements_weak_nested(st.drop_last(), cycles, envs, n, i);
        lemma_statement_weak_nested(st.last(), cycles, envs, n, i);
        lemma_some_statement_add(all_statements(st.drop_last()), nested_statements(st.last()), fills_weak_slot(cycles, envs, n, i));
    }
}

proof fn lemma_branches_weak_nested(
    bs: Seq<(Option<Seq<char>>, Seq<StatementModel>)>,
    cycles: Map<Seq<char>, Seq<Seq<char>>>,
    envs: Map<Seq<char>, Seq<char>>,
    n: Seq<char>,
    i: nat,
)
    ensures
        branches_weak(bs, cycles, envs, n, i) == some_statement(branches_statements(bs), fills_weak_slot(cycles, envs, n, i)),
    decreases bs, 1nat,
{
    if bs.len() > 0 {
        lemma_branches_weak_nested(bs.drop_last(), cycles, envs, n, i);
        lemma_statements_weak_nested(bs.last().1, cycles, envs, n, i);
        lemma_some_statement_add(branches_statements(bs.drop_last()), all_statements(bs.last().1), fills_weak_slot(cycles, envs, n, i));
    }
}

/// Slot `i` of the environment of function `n` is weak exactly when some
/// statement, at any depth in either branch of a conditional or in any branch
/// of a match, assigns to an environment of `n` a tuple that holds, at
/// position `i`, a closure that has a cycle.
pub proof fn law_weak_slots_come_from_any_branch(
    st: Seq<StatementModel>,
    cycles: Map<Seq<char>, Seq<Seq<char>>>,
    envs: Map<Seq<char>, Seq<char>>,
    n: Seq<char>,
    i: nat,
)
    ensures
        statements_weak(st, cycles, envs, n, i) == some_statement(all_statements(st), fills_weak_slot(cycles, envs, n, i)),
{
    lemma_statements_weak_nested(st, cycles, envs, n, i);
}

} // verus!
