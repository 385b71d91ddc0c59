//! Detection of closures that refer to each other through their environments,
//! and the weakening of the references that close such cycles.

use vstd::prelude::*;
use crate::atoms::Name;
use crate::text::{string_less, text_less, texts_sorted, lemma_insert_sorted};
use crate::machine::{
    ClosureInstantiation, Expression, ExpressionModel, FnDef, FnType, MachineType, Memory,
    Statement, TupleExpression, Value, ValueModel, StatementModel, memories_view, statements_view,
    lemma_if_view, lemma_match_statement_view, match_branch_view, MatchBranch, machine_types_view,
    lemma_machine_fn_view, all_statements, nested_statements, branches_statements, some_statement,
    lemma_some_statement_add, lemma_some_statement_one,
};

verus! {

/// A graph over memory locations: each node with the nodes it refers to.
/// Where a node is listed twice, its last entry counts.
pub type Graph = Vec<(Memory, Vec<Memory>)>;

/// The neighbours recorded last for a node of a graph.
pub open spec fn glookup(g: Seq<(Memory, Vec<Memory>)>, k: Seq<char>) -> Option<Seq<Seq<char>>>
    decreases g.len(),
{
    if g.len() == 0 {
        None
    } else if g.last().0@ == k {
        Some(memories_view(g.last().1@))
    } else {
        glookup(g.drop_last(), k)
    }
}

/// The model of a graph: a map from each node to its neighbours.
pub open spec fn graph_view(g: Seq<(Memory, Vec<Memory>)>) -> Map<Seq<char>, Seq<Seq<char>>> {
    Map::new(|k: Seq<char>| glookup(g, k) is Some, |k: Seq<char>| glookup(g, k)->0)
}

/// The neighbours of a node, none where the node has no entry.
pub open spec fn nbrs(m: Map<Seq<char>, Seq<Seq<char>>>, k: Seq<char>) -> Seq<Seq<char>> {
    if m.contains_key(k) { m[k] } else { Seq::empty() }
}

/// The name recorded last for a memory location.
pub open spec fn tlookup(t: Seq<(Memory, Name)>, k: Seq<char>) -> Option<Seq<char>>
    decreases t.len(),
{
    if t.len() == 0 {
        None
    } else if t.last().0@ == k {
        Some(t.last().1@)
    } else {
        tlookup(t.drop_last(), k)
    }
}

/// The model of the map from each environment to the closure built on it.
pub open spec fn translation_view(t: Seq<(Memory, Name)>) -> Map<Seq<char>, Seq<char>> {
    Map::new(|k: Seq<char>| tlookup(t, k) is Some, |k: Seq<char>| tlookup(t, k)->0)
}

/// What the graph of a sequence of statements records: the references between
/// locations, the locations that hold closures with environments, and which
/// closure each environment belongs to.
pub struct GraphParts {
    pub graph: Map<Seq<char>, Seq<Seq<char>>>,
    pub fns: Set<Seq<char>>,
    pub translation: Map<Seq<char>, Seq<char>>,
}

pub open spec fn empty_parts() -> GraphParts {
    GraphParts { graph: Map::empty(), fns: Set::empty(), translation: Map::empty() }
}

/// Parts recorded later take the place of earlier ones for the same location.
pub open spec fn merge_parts(p: GraphParts, q: GraphParts) -> GraphParts {
    GraphParts {
        graph: p.graph.union_prefer_right(q.graph),
        fns: p.fns + q.fns,
        translation: p.translation.union_prefer_right(q.translation),
    }
}

/// The values that an assigned expression refers to.
pub open spec fn assignment_values(e: ExpressionModel) -> Seq<ValueModel> {
    match e {
        ExpressionModel::Value(v) => seq![v],
        ExpressionModel::Tuple(vs) => vs,
        ExpressionModel::ClosureInstantiation(_, Some(v)) => seq![v],
        _ => Seq::empty(),
    }
}

/// The memory locations among values, in order.
pub open spec fn memory_ids(vs: Seq<ValueModel>) -> Seq<Seq<char>>
    decreases vs.len(),
{
    if vs.len() == 0 {
        Seq::empty()
    } else {
        match vs.last() {
            ValueModel::Memory(m) => memory_ids(vs.drop_last()).push(m),
            _ => memory_ids(vs.drop_last()),
        }
    }
}

/// The parts after an assignment: the target refers to the locations that the
/// value refers to, and a closure with an environment is recorded.
pub open spec fn assignment_parts(p: GraphParts, target: Seq<char>, e: ExpressionModel) -> GraphParts {
    let p1 = match e {
        ExpressionModel::ClosureInstantiation(name, Some(v)) => GraphParts {
            translation: match v {
                ValueModel::Memory(m) => p.translation.insert(m, name),
                _ => p.translation,
            },
            fns: p.fns.insert(target),
            ..p
        },
        _ => p,
    };
    GraphParts { graph: p1.graph.insert(target, nbrs(p1.graph, target) + memory_ids(assignment_values(e))), ..p1 }
}

/// The parts after a statement; the branches of conditionals and matches are
/// recorded separately and merged in.
pub open spec fn statement_parts(p: GraphParts, s: StatementModel) -> GraphParts
    decreases s, 0nat,
{
    match s {
        StatementModel::Assignment(target, e) => assignment_parts(p, target, e),
        StatementModel::If(_, t, f) => merge_parts(merge_parts(p, statements_parts(t)), statements_parts(f)),
        StatementModel::Match(_, _, bs, _) => branches_parts(p, bs),
        _ => p,
    }
}

pub open spec fn branches_parts(p: GraphParts, bs: Seq<(Option<Seq<char>>, Seq<StatementModel>)>) -> GraphParts
    decreases bs, 0nat,
{
    if bs.len() == 0 {
        p
    } else {
        merge_parts(branches_parts(p, bs.drop_last()), statements_parts(bs.last().1))
    }
}

/// The parts of a sequence of statements.
pub open spec fn statements_parts(st: Seq<StatementModel>) -> GraphParts
    decreases st, 1nat,
{
    if st.len() == 0 {
        empty_parts()
    } else {
        statement_parts(statements_parts(st.drop_last()), st.last())
    }
}

/// The model of the graph, closures and environment map as the exec code holds them.
pub open spec fn parts_view(g: Seq<(Memory, Vec<Memory>)>, fns: Seq<Memory>, t: Seq<(Memory, Name)>) -> GraphParts {
    GraphParts { graph: graph_view(g), fns: memories_view(fns).to_set(), translation: translation_view(t) }
}

proof fn lemma_glookup_append(a: Seq<(Memory, Vec<Memory>)>, b: Seq<(Memory, Vec<Memory>)>, k: Seq<char>)
    ensures
        glookup(a + b, k) == if glookup(b, k) is Some { glookup(b, k) } else { glookup(a, k) },
    decreases b.len(),
{
    if b.len() == 0 {
        assert(a + b =~= a);
    } else {
        assert((a + b).drop_last() =~= a + b.drop_last());
        lemma_glookup_append(a, b.drop_last(), k);
    }
}

pub proof fn lemma_tlookup_append(a: Seq<(Memory, Name)>, b: Seq<(Memory, Name)>, k: Seq<char>)
    ensures
        tlookup(a + b, k) == if tlookup(b, k) is Some { tlookup(b, k) } else { tlookup(a, k) },
    decreases b.len(),
{
    if b.len() == 0 {
        assert(a + b =~= a);
    } else {
        assert((a + b).drop_last() =~= a + b.drop_last());
        lemma_tlookup_append(a, b.drop_last(), k);
    }
}

pub proof fn lemma_glookup_push(a: Seq<(Memory, Vec<Memory>)>, e: (Memory, Vec<Memory>), k: Seq<char>)
    ensures
        glookup(a.push(e), k) == if e.0@ == k { Some(memories_view(e.1@)) } else { glookup(a, k) },
{
    assert(a.push(e).drop_last() =~= a);
}

pub proof fn lemma_tlookup_push(a: Seq<(Memory, Name)>, e: (Memory, Name), k: Seq<char>)
    ensures
        tlookup(a.push(e), k) == if e.0@ == k { Some(e.1@) } else { tlookup(a, k) },
{
    assert(a.push(e).drop_last() =~= a);
}

/// Appending the parts of another graph merges them in.
proof fn lemma_parts_append(
    g: Seq<(Memory, Vec<Memory>)>, f: Seq<Memory>, t: Seq<(Memory, Name)>,
    g2: Seq<(Memory, Vec<Memory>)>, f2: Seq<Memory>, t2: Seq<(Memory, Name)>,
)
    ensures
        parts_view(g + g2, f + f2, t + t2) == merge_parts(parts_view(g, f, t), parts_view(g2, f2, t2)),
{
    assert forall|k: Seq<char>| #[trigger] glookup(g + g2, k) == if glookup(g2, k) is Some { glookup(g2, k) } else { glookup(g, k) } by {
        lemma_glookup_append(g, g2, k);
    }
    assert forall|k: Seq<char>| #[trigger] tlookup(t + t2, k) == if tlookup(t2, k) is Some { tlookup(t2, k) } else { tlookup(t, k) } by {
        lemma_tlookup_append(t, t2, k);
    }
    assert(graph_view(g + g2) =~= graph_view(g).union_prefer_right(graph_view(g2)));
    assert(translation_view(t + t2) =~= translation_view(t).union_prefer_right(translation_view(t2)));
    assert(memories_view(f + f2) =~= memories_view(f) + memories_view(f2));
    assert(memories_view(f + f2).to_set() =~= memories_view(f).to_set() + memories_view(f2).to_set()) by {
        assert forall|x: Seq<char>| memories_view(f + f2).to_set().contains(x)
            == (memories_view(f).to_set() + memories_view(f2).to_set()).contains(x) by {
            let a = memories_view(f);
            let b = memories_view(f2);
            if (a + b).contains(x) {
                let i = choose|i: int| 0 <= i < (a + b).len() && (a + b)[i] == x;
                if i < a.len() {
                    assert(a[i] == x);
                } else {
                    assert(b[i - a.len()] == x);
                }
            }
            if a.contains(x) {
                let i = choose|i: int| 0 <= i < a.len() && a[i] == x;
                assert((a + b)[i] == x);
            }
            if b.contains(x) {
                let i = choose|i: int| 0 <= i < b.len() && b[i] == x;
                assert((a + b)[i + a.len()] == x);
            }
        }
    }
}

proof fn lemma_memory_ids_single(v: ValueModel)
    ensures
        memory_ids(seq![v]) == match v {
            ValueModel::Memory(m) => seq![m],
            _ => Seq::<Seq<char>>::empty(),
        },
{
    assert(seq![v].drop_last() =~= Seq::<ValueModel>::empty());
    assert(memory_ids(Seq::<ValueModel>::empty()) == Seq::<Seq<char>>::empty());
    assert(seq![v].last() == v);
    if let ValueModel::Memory(m) = v {
        assert(Seq::<Seq<char>>::empty().push(m) =~= seq![m]);
    }
}

/// Adding an element to a sequence adds it to the set of its elements.
pub proof fn lemma_to_set_push(a: Seq<Seq<char>>, x: Seq<char>)
    ensures
        a.push(x).to_set() == a.to_set().insert(x),
{
    assert forall|y: Seq<char>| a.push(x).contains(y) == (a.contains(y) || y == x) by {
        if a.contains(y) {
            let j = choose|j: int| 0 <= j < a.len() && a[j] == y;
            assert(a.push(x)[j] == y);
        }
        if y == x {
            assert(a.push(x)[a.len() as int] == y);
        }
        if a.push(x).contains(y) {
            let j = choose|j: int| 0 <= j < a.len() + 1 && a.push(x)[j] == y;
            if j < a.len() {
                assert(a[j] == y);
            }
        }
    }
    assert forall|y: Seq<char>| a.push(x).to_set().contains(y) == a.to_set().insert(x).contains(y) by {
        assert(a.push(x).to_set().contains(y) == a.push(x).contains(y));
        assert(a.to_set().contains(y) == a.contains(y));
    }
    assert(a.push(x).to_set() =~= a.to_set().insert(x));
}

/// Copies of memory locations.
pub(crate) fn clone_memories(ms: &Vec<Memory>) -> (res: Vec<Memory>)
    ensures
        res@ == ms@,
{
    let mut out: Vec<Memory> = Vec::new();
    let mut i: usize = 0;
    while i < ms.len()
        invariant
            i <= ms.len(),
            out@ == ms@.take(i as int),
        decreases ms.len() - i,
    {
        out.push(ms[i].clone());
        proof {
            assert(out@ =~= ms@.take(i + 1));
        }
        i = i + 1;
    }
    proof {
        assert(ms@.take(ms.len() as int) =~= ms@);
    }
    out
}

/// The neighbours recorded last for a node.
pub(crate) fn graph_neighbors(g: &Graph, k: &Memory) -> (res: Vec<Memory>)
    ensures
        memories_view(res@) == nbrs(graph_view(g@), k@),
{
    let mut i: usize = g.len();
    proof {
        assert(g@.take(i as int) =~= g@);
    }
    while i > 0
        invariant
            i <= g.len(),
            glookup(g@, k@) == glookup(g@.take(i as int), k@),
        decreases i,
    {
        proof {
            assert(g@.take(i as int).drop_last() =~= g@.take(i - 1));
        }
        if g[i - 1].0.0 == k.0 {
            return clone_memories(&g[i - 1].1);
        }
        i = i - 1;
    }
    Vec::new()
}

/// The cycles of closures found in a function's statements, with the closure
/// that each environment belongs to.
pub struct ClosureCycles {
    pub fn_translation: Vec<(Memory, Name)>,
    pub cycles: Vec<(Memory, Vec<Memory>)>,
}

impl ClosureCycles {
    /// No cycles, and no environment mapped to a closure.
    pub fn new() -> (res: Self)
        ensures
            translation_view(res.fn_translation@) == Map::<Seq<char>, Seq<char>>::empty(),
            graph_view(res.cycles@) == Map::<Seq<char>, Seq<Seq<char>>>::empty(),
    {
        let res = ClosureCycles { fn_translation: Vec::new(), cycles: Vec::new() };
        proof {
            assert(translation_view(res.fn_translation@) =~= Map::<Seq<char>, Seq<char>>::empty());
            assert(graph_view(res.cycles@) =~= Map::<Seq<char>, Seq<Seq<char>>>::empty());
        }
        res
    }
}

/// Finds the cycles of closures in function definitions and weakens the
/// references that close them.
pub struct WeakReferrer {
    pub graph: Graph,
}

impl WeakReferrer {
    /// A referrer with an empty graph.
    pub fn new() -> (res: Self)
        ensures
            graph_view(res.graph@) == Map::<Seq<char>, Seq<Seq<char>>>::empty(),
    {
        let res = WeakReferrer { graph: Vec::new() };
        proof {
            assert(graph_view(res.graph@) =~= Map::<Seq<char>, Seq<Seq<char>>>::empty());
        }
        res
    }

    /// The graph of references between locations in a sequence of statements,
    /// the locations that hold closures with environments, and the closure
    /// that each environment belongs to.
    pub fn construct_graph(&self, statements: &Vec<Statement>) -> (res: (Graph, Vec<Memory>, Vec<(Memory, Name)>))
        ensures
            parts_view(res.0@, res.1@, res.2@) == statements_parts(statements_view(statements@)),
        decreases statements_view(statements@), 1nat,
    {
        let ghost st = statements_view(statements@);
        let mut graph: Graph = Vec::new();
        let mut fns: Vec<Memory> = Vec::new();
        let mut translation: Vec<(Memory, Name)> = Vec::new();
        proof {
            assert(graph_view(graph@) =~= Map::<Seq<char>, Seq<Seq<char>>>::empty());
            assert(translation_view(translation@) =~= Map::<Seq<char>, Seq<char>>::empty());
            assert(memories_view(fns@).to_set() =~= Set::<Seq<char>>::empty());
            assert(st.take(0) =~= Seq::<StatementModel>::empty());
        }
        let mut i: usize = 0;
        while i < statements.len()
            invariant
                i <= statements.len(),
                st == statements_view(statements@),
                parts_view(graph@, fns@, translation@) == statements_parts(st.take(i as int)),
            decreases statements.len() - i,
        {
            proof {
                assert(st.take(i + 1).drop_last() =~= st.take(i as int));
                assert(st.take(i + 1).last() == st[i as int]);
                assert(st[i as int] == statements@[i as int]@);
            }
            let ghost p0 = parts_view(graph@, fns@, translation@);
            match &statements[i] {
                Statement::Assignment(a) => {
                    self.record_assignment(&a.target, &a.value, &mut graph, &mut fns, &mut translation);
                    proof {
                        assert(st[i as int] == StatementModel::Assignment(a.target@, a.value@));
                        assert(parts_view(graph@, fns@, translation@) == statement_parts(p0, st[i as int]));
                    }
                },
                Statement::IfStatement(s) => {
                    proof {
                        lemma_if_view(*s);
                        assert(decreases_to!(st => st[i as int]));
                        assert(decreases_to!(st[i as int] => st[i as int]->If_1));
                        assert(decreases_to!(st[i as int] => st[i as int]->If_2));
                    }
                    let (g1, f1, t1) = self.construct_graph(&s.branches.0);
                    let (g2, f2, t2) = self.construct_graph(&s.branches.1);
                    let ghost (ga, fa, ta) = (graph@, fns@, translation@);
                    let ghost (gs1, fs1, ts1) = (g1@, f1@, t1@);
                    let ghost (gs2, fs2, ts2) = (g2@, f2@, t2@);
                    let mut g1 = g1;
                    let mut f1 = f1;
                    let mut t1 = t1;
                    graph.append(&mut g1);
                    fns.append(&mut f1);
                    translation.append(&mut t1);
                    proof {
                        lemma_parts_append(ga, fa, ta, gs1, fs1, ts1);
                    }
                    let ghost (gb, fb, tb) = (graph@, fns@, translation@);
                    let mut g2 = g2;
                    let mut f2 = f2;
                    let mut t2 = t2;
                    graph.append(&mut g2);
                    fns.append(&mut f2);
                    translation.append(&mut t2);
                    proof {
                        lemma_parts_append(gb, fb, tb, gs2, fs2, ts2);
                        assert(parts_view(graph@, fns@, translation@) == statement_parts(p0, st[i as int]));
                    }
                },
                Statement::MatchStatement(m) => {
                    proof {
                        lemma_match_statement_view(*m);
                    }
                    let ghost bs = st[i as int]->Match_2;
                    let mut j: usize = 0;
                    proof {
                        assert(bs.take(0) =~= Seq::<(Option<Seq<char>>, Seq<StatementModel>)>::empty());
                    }
                    while j < m.branches.len()
                        invariant
                            j <= m.branches.len(),
                            bs == m.branches@.map_values(|b: MatchBranch| match_branch_view(b)),
                            bs == st[i as int]->Match_2,
                            st[i as int] is Match,
                            st == statements_view(statements@),
                            i < statements.len(),
                            parts_view(graph@, fns@, translation@) == branches_parts(p0, bs.take(j as int)),
                        decreases m.branches.len() - j,
                    {
                        proof {
                            assert(bs.take(j + 1).drop_last() =~= bs.take(j as int));
                            assert(bs.take(j + 1).last() == bs[j as int]);
                            assert(bs[j as int] == match_branch_view(m.branches@[j as int]));
                            assert(decreases_to!(st => st[i as int]));
                            assert(decreases_to!(st[i as int] => st[i as int]->Match_2));
                            assert(decreases_to!(bs => bs[j as int]));
                            assert(decreases_to!(bs[j as int] => bs[j as int].1));
                        }
                        let (g1, f1, t1) = self.construct_graph(&m.branches[j].statements);
                        let ghost (ga, fa, ta) = (graph@, fns@, translation@);
                        let ghost (gs, fs, ts) = (g1@, f1@, t1@);
                        let mut g1 = g1;
                        let mut f1 = f1;
                        let mut t1 = t1;
                        graph.append(&mut g1);
                        fns.append(&mut f1);
                        translation.append(&mut t1);
                        proof {
                            lemma_parts_append(ga, fa, ta, gs, fs, ts);
                        }
                        j = j + 1;
                    }
                    proof {
                        assert(bs.take(m.branches.len() as int) =~= bs);
                        assert(parts_view(graph@, fns@, translation@) == statement_parts(p0, st[i as int]));
                    }
                },
                _ => {
                    proof {
                        assert(parts_view(graph@, fns@, translation@) == statement_parts(p0, st[i as int]));
                    }
                },
            }
            i = i + 1;
        }
        proof {
            assert(st.take(statements.len() as int) =~= st);
        }
        (graph, fns, translation)
    }

    /// Records an assignment: its target refers to the locations its value refers to.
    fn record_assignment(
        &self,
        target: &Memory,
        value: &Expression,
        graph: &mut Graph,
        fns: &mut Vec<Memory>,
        translation: &mut Vec<(Memory, Name)>,
    )
        ensures
            parts_view(final(graph)@, final(fns)@, final(translation)@)
                == assignment_parts(parts_view(old(graph)@, old(fns)@, old(translation)@), target@, value@),
    {
        let ghost p = parts_view(graph@, fns@, translation@);
        let mut ids: Vec<Memory> = Vec::new();
        match value {
            Expression::Value(v) => {
                match v {
                    Value::Memory(m) => {
                        ids.push(m.clone());
                        proof {
                            assert(v@ == ValueModel::Memory(m@));
                            assert(memories_view(ids@) =~= seq![m@]);
                        }
                    },
                    _ => {
                        proof {
                            assert(!(v@ is Memory));
                            assert(memories_view(ids@) =~= Seq::<Seq<char>>::empty());
                        }
                    },
                }
                proof {
                    lemma_memory_ids_single(v@);
                    assert(memory_ids(seq![v@]) =~= memories_view(ids@));
                }
            },
            Expression::TupleExpression(TupleExpression(vs)) => {
                let mut k: usize = 0;
                while k < vs.len()
                    invariant
                        k <= vs.len(),
                        memories_view(ids@) == memory_ids(vs@.map_values(|v: Value| v@).take(k as int)),
                    decreases vs.len() - k,
                {
                    proof {
                        assert(vs@.map_values(|v: Value| v@).take(k + 1).drop_last() =~= vs@.map_values(|v: Value| v@).take(k as int));
                    }
                    let ghost before = ids@;
                    if let Value::Memory(m) = &vs[k] {
                        ids.push(m.clone());
                        proof {
                            assert(memories_view(ids@) =~= memories_view(before).push(m@));
                        }
                    }
                    k = k + 1;
                }
                proof {
                    assert(vs@.map_values(|v: Value| v@).take(vs.len() as int) =~= vs@.map_values(|v: Value| v@));
                    assert(value@ == ExpressionModel::Tuple(vs@.map_values(|v: Value| v@)));
                }
            },
            Expression::ClosureInstantiation(ClosureInstantiation { name, env: Some(v) }) => {
                let ghost t0 = translation@;
                if let Value::Memory(m) = v {
                    translation.push((m.clone(), name.clone()));
                    ids.push(m.clone());
                    proof {
                        assert(v@ == ValueModel::Memory(m@));
                        assert(memories_view(ids@) =~= seq![m@]);
                        assert forall|q: Seq<char>| #[trigger] tlookup(translation@, q)
                            == if m@ == q { Some(name@) } else { tlookup(t0, q) } by {
                            lemma_tlookup_push(t0, translation@.last(), q);
                        }
                        assert(translation_view(translation@) =~= translation_view(t0).insert(m@, name@));
                    }
                }
                let ghost f0 = fns@;
                fns.push(target.clone());
                proof {
                    assert(memories_view(fns@) =~= memories_view(f0).push(target@));
                    lemma_to_set_push(memories_view(f0), target@);
                    assert(seq![v@].drop_last() =~= Seq::<ValueModel>::empty());
                    lemma_memory_ids_single(v@);
                    if !(v@ is Memory) {
                        assert(memories_view(ids@) =~= Seq::<Seq<char>>::empty());
                    }
                    assert(memory_ids(seq![v@]) =~= memories_view(ids@));
                }
            },
            _ => {
                proof {
                    assert(memories_view(ids@) =~= memory_ids(assignment_values(value@)));
                }
            },
        }
        let ghost p1 = parts_view(graph@, fns@, translation@);
        let mut neighbors = graph_neighbors(graph, target);
        let ghost n0 = neighbors@;
        let ghost i0 = ids@;
        neighbors.append(&mut ids);
        let ghost g0 = graph@;
        graph.push((target.clone(), neighbors));
        proof {
            assert(memories_view(neighbors@) =~= memories_view(n0) + memories_view(i0)) by {
                assert(neighbors@ =~= n0 + i0);
            }
            assert forall|q: Seq<char>| #[trigger] glookup(graph@, q)
                == if target@ == q { Some(memories_view(neighbors@)) } else { glookup(g0, q) } by {
                lemma_glookup_push(g0, graph@.last(), q);
            }
            assert(graph_view(graph@) =~= graph_view(g0).insert(target@, memories_view(neighbors@)));
        }
    }

    /// A copy of a function definition in which the functions of its
    /// environment that close a cycle of closures become weak references.
    pub fn weaken_fn_def(&self, fn_def: FnDef, weak_fns: &Vec<(Name, usize)>) -> (res: FnDef)
        ensures
            res.name == fn_def.name,
            res.arguments == fn_def.arguments,
            res.statements == fn_def.statements,
            res.ret == fn_def.ret,
            res.allocations == fn_def.allocations,
            res.size_bounds == fn_def.size_bounds,
            res.is_recursive == fn_def.is_recursive,
            res.env@.len() == fn_def.env@.len(),
            forall|i: int| 0 <= i < fn_def.env@.len() ==> (#[trigger] res.env@[i])@ == weakened_type(
                fn_def.env@[i]@,
                is_weak(weak_fns@, fn_def.name@, i),
            ),
    {
        let FnDef { name, arguments, statements, ret, env, allocations, size_bounds, is_recursive } = fn_def;
        let mut new_env: Vec<MachineType> = Vec::new();
        let mut i: usize = 0;
        while i < env.len()
            invariant
                i <= env.len(),
                new_env@.len() == i,
                name == fn_def.name,
                env == fn_def.env,
                forall|j: int| 0 <= j < i ==> (#[trigger] new_env@[j])@ == weakened_type(
                    env@[j]@,
                    is_weak(weak_fns@, name@, j),
                ),
            decreases env.len() - i,
        {
            let weak = contains_weak(weak_fns, &name, i);
            let t = match &env[i] {
                MachineType::FnType(f) => {
                    proof {
                        lemma_machine_fn_view(f.0, f.1);
                    }
                    if weak {
                        MachineType::WeakFnType(f.clone())
                    } else {
                        MachineType::FnType(f.clone())
                    }
                },
                other => other.clone(),
            };
            new_env.push(t);
            i = i + 1;
        }
        FnDef { name, arguments, statements, ret, env: new_env, allocations, size_bounds, is_recursive }
    }
}

/// Whether the `i`-th element of the environment of the named function is weak.
pub open spec fn is_weak(weak_fns: Seq<(Name, usize)>, name: Seq<char>, i: int) -> bool {
    exists|j: int| 0 <= j < weak_fns.len() && (#[trigger] weak_fns[j]).0@ == name && weak_fns[j].1 == i
}

/// A function type that is weak becomes a weak function type; other types stay.
pub open spec fn weakened_type(t: crate::machine::MachineTypeModel, weak: bool) -> crate::machine::MachineTypeModel {
    match t {
        crate::machine::MachineTypeModel::Function(args, ret) => if weak {
            crate::machine::MachineTypeModel::WeakFunction(args, ret)
        } else {
            t
        },
        _ => t,
    }
}

fn contains_weak(weak_fns: &Vec<(Name, usize)>, name: &Name, i: usize) -> (res: bool)
    ensures
        res == is_weak(weak_fns@, name@, i as int),
{
    let mut j: usize = 0;
    while j < weak_fns.len()
        invariant
            j <= weak_fns.len(),
            forall|t: int| 0 <= t < j ==> !((#[trigger] weak_fns@[t]).0@ == name@ && weak_fns@[t].1 == i),
        decreases weak_fns.len() - j,
    {
        if weak_fns[j].0 == *name && weak_fns[j].1 == i {
            return true;
        }
        j = j + 1;
    }
    false
}

/// Whether an entry of a graph is the last one for its node.
pub open spec fn is_last_entry(g: Seq<(Memory, Vec<Memory>)>, t: int) -> bool {
    forall|u: int| t < u < g.len() ==> (#[trigger] g[u]).0@ != g[t].0@
}

/// Whether the edge from `b` to `a` is among the entries before `i`.
pub open spec fn edge_before(g: Seq<(Memory, Vec<Memory>)>, i: int, a: Seq<char>, b: Seq<char>) -> bool {
    exists|t: int| 0 <= t < i && is_last_entry(g, t) && (#[trigger] g[t]).0@ == b && memories_view(g[t].1@).contains(a)
}

proof fn lemma_glookup_last_entry(g: Seq<(Memory, Vec<Memory>)>, t: int)
    requires
        0 <= t < g.len(),
        is_last_entry(g, t),
    ensures
        glookup(g, g[t].0@) == Some(memories_view(g[t].1@)),
    decreases g.len(),
{
    if t < g.len() - 1 {
        assert(g.last().0@ != g[t].0@);
        assert(is_last_entry(g.drop_last(), t)) by {
            assert forall|u: int| t < u < g.drop_last().len() implies (#[trigger] g.drop_last()[u]).0@ != g.drop_last()[t].0@ by {
                assert(g.drop_last()[u] == g[u]);
            }
        }
        lemma_glookup_last_entry(g.drop_last(), t);
    }
}

proof fn lemma_glookup_some(g: Seq<(Memory, Vec<Memory>)>, k: Seq<char>)
    requires
        glookup(g, k) is Some,
    ensures
        exists|t: int| 0 <= t < g.len() && is_last_entry(g, t) && (#[trigger] g[t]).0@ == k
            && glookup(g, k) == Some(memories_view(g[t].1@)),
    decreases g.len(),
{
    if g.last().0@ == k {
        let t = g.len() - 1;
        assert(is_last_entry(g, t));
        assert(g[t].0@ == k);
    } else {
        lemma_glookup_some(g.drop_last(), k);
        let t = choose|t: int| 0 <= t < g.drop_last().len() && is_last_entry(g.drop_last(), t)
            && (#[trigger] g.drop_last()[t]).0@ == k && glookup(g.drop_last(), k) == Some(memories_view(g.drop_last()[t].1@));
        assert(g[t] == g.drop_last()[t]);
        assert(is_last_entry(g, t)) by {
            assert forall|u: int| t < u < g.len() implies (#[trigger] g[u]).0@ != g[t].0@ by {
                if u < g.len() - 1 {
                    assert(g.drop_last()[u] == g[u]);
                }
            }
        }
    }
}

/// How often `b` refers to `a` in the entries before `i` that count.
pub open spec fn edges_count(g: Seq<(Memory, Vec<Memory>)>, i: int, a: Seq<char>, b: Seq<char>) -> nat
    decreases i,
{
    if i <= 0 {
        0
    } else {
        edges_count(g, i - 1, a, b) + if is_last_entry(g, i - 1) && g[i - 1].0@ == b {
            memories_view(g[i - 1].1@).to_multiset().count(a)
        } else {
            0
        }
    }
}

/// The count of edges before `i` is the count in the one entry that counts for
/// `b`, if it comes before `i`, and none otherwise.
proof fn lemma_edges_count(g: Seq<(Memory, Vec<Memory>)>, n: int, a: Seq<char>, b: Seq<char>)
    requires
        0 <= n <= g.len(),
    ensures
        forall|t: int| 0 <= t < n && is_last_entry(g, t) && (#[trigger] g[t]).0@ == b
            ==> edges_count(g, n, a, b) == memories_view(g[t].1@).to_multiset().count(a),
        (forall|t: int| 0 <= t < n ==> !(is_last_entry(g, t) && (#[trigger] g[t]).0@ == b)) ==> edges_count(g, n, a, b) == 0,
    decreases n,
{
    if n > 0 {
        lemma_edges_count(g, n - 1, a, b);
        if is_last_entry(g, n - 1) && g[n - 1].0@ == b {
            assert forall|t: int| 0 <= t < n - 1 implies !(is_last_entry(g, t) && (#[trigger] g[t]).0@ == b) by {
                if is_last_entry(g, t) && g[t].0@ == b {
                    assert(g[n - 1].0@ != g[t].0@);
                }
            }
        }
    }
}

/// Reversing every edge twice gives each node back the neighbours it had, up
/// to their order, and keeps exactly the nodes that have neighbours.
pub proof fn law_transpose_twice(
    g: Map<Seq<char>, Seq<Seq<char>>>,
    t1: Map<Seq<char>, Seq<Seq<char>>>,
    t2: Map<Seq<char>, Seq<Seq<char>>>,
)
    requires
        forall|a: Seq<char>, b: Seq<char>| #[trigger] nbrs(t1, a).to_multiset().count(b) == nbrs(g, b).to_multiset().count(a),
        forall|a: Seq<char>, b: Seq<char>| #[trigger] nbrs(t2, a).to_multiset().count(b) == nbrs(t1, b).to_multiset().count(a),
        forall|k: Seq<char>| #[trigger] t2.contains_key(k) ==> t2[k].len() > 0,
    ensures
        forall|u: Seq<char>| #[trigger] nbrs(t2, u).to_multiset() == nbrs(g, u).to_multiset(),
        forall|u: Seq<char>| #[trigger] t2.contains_key(u) <==> nbrs(g, u).len() > 0,
{
    broadcast use {vstd::seq_lib::group_to_multiset_ensures, vstd::multiset::group_multiset_axioms};

    assert forall|u: Seq<char>| #[trigger] nbrs(t2, u).to_multiset() == nbrs(g, u).to_multiset() by {
        assert forall|v: Seq<char>| nbrs(t2, u).to_multiset().count(v) == #[trigger] nbrs(g, u).to_multiset().count(v) by {
            assert(nbrs(t2, u).to_multiset().count(v) == nbrs(t1, v).to_multiset().count(u));
        }
        assert(nbrs(t2, u).to_multiset() =~= nbrs(g, u).to_multiset());
    }
    assert forall|u: Seq<char>| #[trigger] t2.contains_key(u) <==> nbrs(g, u).len() > 0 by {
        assert(nbrs(t2, u).to_multiset() == nbrs(g, u).to_multiset());
        assert(nbrs(t2, u).len() == nbrs(t2, u).to_multiset().len());
        assert(nbrs(g, u).len() == nbrs(g, u).to_multiset().len());
    }
}

/// Whether an entry is the last one for its node.
fn entry_is_last(g: &Graph, t: usize) -> (res: bool)
    requires
        t < g.len(),
    ensures
        res == is_last_entry(g@, t as int),
{
    let mut u: usize = t + 1;
    while u < g.len()
        invariant
            t < u <= g.len(),
            forall|w: int| t < w < u ==> (#[trigger] g@[w]).0@ != g@[t as int].0@,
        decreases g.len() - u,
    {
        if g[u].0.0 == g[t].0.0 {
            return false;
        }
        u = u + 1;
    }
    true
}

impl WeakReferrer {
    /// The graph with every edge reversed: `a` refers to `b` in the result
    /// exactly when `b` refers to `a` in the given graph.
    pub fn transpose(&self, graph: &Graph) -> (res: Graph)
        ensures
            forall|a: Seq<char>, b: Seq<char>|
                #[trigger] nbrs(graph_view(res@), a).contains(b) == nbrs(graph_view(graph@), b).contains(a),
            forall|a: Seq<char>, b: Seq<char>|
                #[trigger] nbrs(graph_view(res@), a).to_multiset().count(b) == nbrs(graph_view(graph@), b).to_multiset().count(a),
            forall|k: Seq<char>| #[trigger] graph_view(res@).contains_key(k) ==> graph_view(res@)[k].len() > 0,
    {
        broadcast use {vstd::seq_lib::group_to_multiset_ensures, vstd::multiset::group_multiset_axioms};

        let mut transpose: Graph = Vec::new();
        let mut i: usize = 0;
        while i < graph.len()
            invariant
                i <= graph.len(),
                forall|a: Seq<char>, b: Seq<char>|
                    #[trigger] nbrs(graph_view(transpose@), a).contains(b) == edge_before(graph@, i as int, a, b),
                forall|a: Seq<char>, b: Seq<char>|
                    #[trigger] nbrs(graph_view(transpose@), a).to_multiset().count(b) == edges_count(graph@, i as int, a, b),
                forall|k: Seq<char>| #[trigger] graph_view(transpose@).contains_key(k) ==> graph_view(transpose@)[k].len() > 0,
            decreases graph.len() - i,
        {
            if entry_is_last(graph, i) {
                let node = &graph[i].0;
                let ns = &graph[i].1;
                let mut j: usize = 0;
                proof {
                    assert forall|a: Seq<char>| #[trigger] memories_view(ns@).take(0).to_multiset().count(a) == 0 by {
                        vstd::seq_lib::to_multiset_contains(memories_view(ns@).take(0), a);
                    }
                }
                while j < ns.len()
                    invariant
                        i < graph.len(),
                        is_last_entry(graph@, i as int),
                        node == graph@[i as int].0,
                        ns == graph@[i as int].1,
                        j <= ns.len(),
                        forall|a: Seq<char>, b: Seq<char>|
                            #[trigger] nbrs(graph_view(transpose@), a).contains(b) == (edge_before(graph@, i as int, a, b)
                                || (b == node@ && memories_view(ns@).take(j as int).contains(a))),
                        forall|a: Seq<char>, b: Seq<char>|
                            #[trigger] nbrs(graph_view(transpose@), a).to_multiset().count(b) == edges_count(graph@, i as int, a, b)
                                + if b == node@ { memories_view(ns@).take(j as int).to_multiset().count(a) } else { 0 },
                        forall|k: Seq<char>| #[trigger] graph_view(transpose@).contains_key(k) ==> graph_view(transpose@)[k].len() > 0,
                    decreases ns.len() - j,
                {
                    let neighbor = &ns[j];
                    let mut list = graph_neighbors(&transpose, neighbor);
                    let ghost l0 = memories_view(list@);
                    list.push(node.clone());
                    let ghost t0 = transpose@;
                    transpose.push((neighbor.clone(), list));
                    proof {
                        assert(memories_view(list@) =~= l0.push(node@));
                        assert forall|q: Seq<char>| #[trigger] glookup(transpose@, q)
                            == if neighbor@ == q { Some(memories_view(list@)) } else { glookup(t0, q) } by {
                            lemma_glookup_push(t0, transpose@.last(), q);
                        }
                        assert(graph_view(transpose@) =~= graph_view(t0).insert(neighbor@, memories_view(list@)));
                        let mv = memories_view(ns@);
                        assert(mv.take(j + 1) =~= mv.take(j as int).push(neighbor@));
                        vstd::seq_lib::to_multiset_build(mv.take(j as int), neighbor@);
                        vstd::seq_lib::to_multiset_build(l0, node@);
                        assert forall|a: Seq<char>, b: Seq<char>|
                            #[trigger] nbrs(graph_view(transpose@), a).to_multiset().count(b) == edges_count(graph@, i as int, a, b)
                                + if b == node@ { mv.take(j + 1).to_multiset().count(a) } else { 0 } by {
                            assert(nbrs(graph_view(t0), a).to_multiset().count(b) == edges_count(graph@, i as int, a, b)
                                + if b == node@ { mv.take(j as int).to_multiset().count(a) } else { 0 });
                            if a == neighbor@ {
                                assert(nbrs(graph_view(t0), a) == l0);
                                assert(nbrs(graph_view(transpose@), a) == l0.push(node@));
                                assert(l0.push(node@).to_multiset().count(b) == l0.to_multiset().count(b) + if b == node@ { 1nat } else { 0nat });
                                assert(mv.take(j + 1).to_multiset().count(a) == mv.take(j as int).to_multiset().count(a) + 1);
                            } else {
                                assert(nbrs(graph_view(transpose@), a) == nbrs(graph_view(t0), a));
                                assert(mv.take(j + 1).to_multiset().count(a) == mv.take(j as int).to_multiset().count(a));
                            }
                        }
                        assert forall|a: Seq<char>, b: Seq<char>|
                            #[trigger] nbrs(graph_view(transpose@), a).contains(b) == (edge_before(graph@, i as int, a, b)
                                || (b == node@ && mv.take(j + 1).contains(a))) by {
                            assert(nbrs(graph_view(t0), a).contains(b) == (edge_before(graph@, i as int, a, b)
                                || (b == node@ && mv.take(j as int).contains(a))));
                            if a == neighbor@ {
                                assert(nbrs(graph_view(t0), a) == l0);
                                assert(nbrs(graph_view(transpose@), a) == l0.push(node@));
                                if l0.push(node@).contains(b) && b != node@ {
                                    let w = choose|w: int| 0 <= w < l0.len() + 1 && l0.push(node@)[w] == b;
                                    assert(l0[w] == b);
                                }
                                if l0.contains(b) {
                                    let w = choose|w: int| 0 <= w < l0.len() && l0[w] == b;
                                    assert(l0.push(node@)[w] == b);
                                }
                                assert(l0.push(node@)[l0.len() as int] == node@);
                                assert(mv.take(j + 1)[j as int] == a);
                            } else {
                                if mv.take(j + 1).contains(a) {
                                    let w = choose|w: int| 0 <= w < j + 1 && #[trigger] mv.take(j + 1)[w] == a;
                                    assert(mv.take(j as int)[w] == a);
                                }
                                if mv.take(j as int).contains(a) {
                                    let w = choose|w: int| 0 <= w < j && #[trigger] mv.take(j as int)[w] == a;
                                    assert(mv.take(j + 1)[w] == a);
                                }
                            }
                        }
                    }
                    j = j + 1;
                }
                proof {
                    assert(memories_view(ns@).take(ns.len() as int) =~= memories_view(ns@));
                    assert forall|a: Seq<char>, b: Seq<char>|
                        edges_count(graph@, i + 1, a, b) == edges_count(graph@, i as int, a, b)
                            + if b == node@ { memories_view(ns@).to_multiset().count(a) } else { 0 } by {
                    }
                    assert forall|a: Seq<char>, b: Seq<char>|
                        edge_before(graph@, i + 1, a, b) == (edge_before(graph@, i as int, a, b)
                            || (b == node@ && memories_view(ns@).contains(a))) by {
                        if edge_before(graph@, i + 1, a, b) && !edge_before(graph@, i as int, a, b) {
                            let t = choose|t: int| 0 <= t < i + 1 && is_last_entry(graph@, t) && (#[trigger] graph@[t]).0@ == b
                                && memories_view(graph@[t].1@).contains(a);
                            assert(t == i);
                        }
                        if b == node@ && memories_view(ns@).contains(a) {
                            assert(graph@[i as int].0@ == b);
                        }
                    }
                }
            } else {
                proof {
                    assert forall|a: Seq<char>, b: Seq<char>|
                        edges_count(graph@, i + 1, a, b) == edges_count(graph@, i as int, a, b) by {
                    }
                    assert forall|a: Seq<char>, b: Seq<char>|
                        edge_before(graph@, i + 1, a, b) == edge_before(graph@, i as int, a, b) by {
                        if edge_before(graph@, i + 1, a, b) {
                            let t = choose|t: int| 0 <= t < i + 1 && is_last_entry(graph@, t) && (#[trigger] graph@[t]).0@ == b
                                && memories_view(graph@[t].1@).contains(a);
                            assert(t != i);
                        }
                    }
                }
            }
            i = i + 1;
        }
        proof {
            assert forall|a: Seq<char>, b: Seq<char>|
                #[trigger] nbrs(graph_view(transpose@), a).contains(b) == nbrs(graph_view(graph@), b).contains(a) by {
                if edge_before(graph@, graph.len() as int, a, b) {
                    let t = choose|t: int| 0 <= t < graph.len() && is_last_entry(graph@, t) && (#[trigger] graph@[t]).0@ == b
                        && memories_view(graph@[t].1@).contains(a);
                    lemma_glookup_last_entry(graph@, t);
                }
                if graph_view(graph@).contains_key(b) {
                    lemma_glookup_some(graph@, b);
                    let t = choose|t: int| 0 <= t < graph@.len() && is_last_entry(graph@, t) && (#[trigger] graph@[t]).0@ == b
                        && glookup(graph@, b) == Some(memories_view(graph@[t].1@));
                    if nbrs(graph_view(graph@), b).contains(a) {
                        assert(edge_before(graph@, graph.len() as int, a, b));
                    }
                }
            }
            assert forall|a: Seq<char>, b: Seq<char>|
                #[trigger] nbrs(graph_view(transpose@), a).to_multiset().count(b) == nbrs(graph_view(graph@), b).to_multiset().count(a) by {
                lemma_edges_count(graph@, graph.len() as int, a, b);
                if graph_view(graph@).contains_key(b) {
                    lemma_glookup_some(graph@, b);
                    let t = choose|t: int| 0 <= t < graph@.len() && is_last_entry(graph@, t) && (#[trigger] graph@[t]).0@ == b
                        && glookup(graph@, b) == Some(memories_view(graph@[t].1@));
                    assert(edges_count(graph@, graph.len() as int, a, b) == memories_view(graph@[t].1@).to_multiset().count(a));
                } else {
                    assert forall|t: int| 0 <= t < graph.len() implies !(is_last_entry(graph@, t) && (#[trigger] graph@[t]).0@ == b) by {
                        if is_last_entry(graph@, t) && graph@[t].0@ == b {
                            lemma_glookup_last_entry(graph@, t);
                        }
                    }
                    assert(nbrs(graph_view(graph@), b) =~= Seq::<Seq<char>>::empty());
                    assert(nbrs(graph_view(graph@), b).to_multiset().count(a) == 0);
                }
            }
        }
        transpose
    }
}

// ---------------------------------------------------------------------------
// Depth-first search.

/// A visit of the depth-first search: the node is marked visited, its
/// unvisited neighbours are visited in order, and then the node is added to the
/// order. `fuel` bounds the depth of the search.
pub open spec fn dfs_visit(
    g: Map<Seq<char>, Seq<Seq<char>>>,
    node: Seq<char>,
    st: (Set<Seq<char>>, Seq<Seq<char>>),
    fuel: nat,
) -> (Set<Seq<char>>, Seq<Seq<char>>)
    decreases fuel, 0nat, 2nat,
{
    if fuel == 0 {
        st
    } else {
        dfs_after_mark(g, node, (st.0.insert(node), st.1), fuel)
    }
}

/// The rest of a visit once the node is marked visited: its unvisited
/// neighbours are visited in order, then the node is added to the order.
pub open spec fn dfs_after_mark(
    g: Map<Seq<char>, Seq<Seq<char>>>,
    node: Seq<char>,
    st: (Set<Seq<char>>, Seq<Seq<char>>),
    fuel: nat,
) -> (Set<Seq<char>>, Seq<Seq<char>>)
    decreases fuel, 0nat, 1nat,
{
    if fuel == 0 {
        st
    } else {
        let after = dfs_visit_all(g, nbrs(g, node), st, (fuel - 1) as nat);
        (after.0, after.1.push(node))
    }
}

/// The visits of those of a sequence of neighbours that are not visited yet, in order.
pub open spec fn dfs_visit_all(
    g: Map<Seq<char>, Seq<Seq<char>>>,
    ns: Seq<Seq<char>>,
    st: (Set<Seq<char>>, Seq<Seq<char>>),
    fuel: nat,
) -> (Set<Seq<char>>, Seq<Seq<char>>)
    decreases fuel, 1nat, ns.len(),
{
    if ns.len() == 0 {
        st
    } else {
        let next = if st.0.contains(ns[0]) { st } else { dfs_visit(g, ns[0], st, fuel) };
        dfs_visit_all(g, ns.drop_first(), next, fuel)
    }
}

/// Every node that an entry of the graph names, as a key or as a neighbour.
pub open spec fn graph_nodes(g: Seq<(Memory, Vec<Memory>)>) -> Seq<Seq<char>>
    decreases g.len(),
{
    if g.len() == 0 {
        Seq::empty()
    } else {
        graph_nodes(g.drop_last()).push(g.last().0@) + memories_view(g.last().1@)
    }
}

/// How many entries of a sequence of nodes are not visited.
pub open spec fn count_unvisited(ns: Seq<Seq<char>>, v: Set<Seq<char>>) -> nat
    decreases ns.len(),
{
    if ns.len() == 0 {
        0
    } else {
        count_unvisited(ns.drop_last(), v) + if v.contains(ns.last()) { 0nat } else { 1nat }
    }
}

/// Enough fuel for a search that starts with the given nodes visited.
pub open spec fn dfs_fuel(g: Seq<(Memory, Vec<Memory>)>, v: Set<Seq<char>>) -> nat {
    count_unvisited(graph_nodes(g), v) + 2
}

proof fn lemma_count_unvisited_mono(ns: Seq<Seq<char>>, v: Set<Seq<char>>, w: Set<Seq<char>>)
    requires
        v.subset_of(w),
    ensures
        count_unvisited(ns, w) <= count_unvisited(ns, v),
    decreases ns.len(),
{
    if ns.len() > 0 {
        lemma_count_unvisited_mono(ns.drop_last(), v, w);
    }
}

proof fn lemma_count_unvisited_strict(ns: Seq<Seq<char>>, v: Set<Seq<char>>, w: Set<Seq<char>>, x: Seq<char>)
    requires
        v.subset_of(w),
        ns.contains(x),
        !v.contains(x),
        w.contains(x),
    ensures
        count_unvisited(ns, w) < count_unvisited(ns, v),
    decreases ns.len(),
{
    lemma_count_unvisited_mono(ns.drop_last(), v, w);
    if ns.last() != x {
        let i = choose|i: int| 0 <= i < ns.len() && ns[i] == x;
        assert(ns.drop_last()[i] == x);
        lemma_count_unvisited_strict(ns.drop_last(), v, w, x);
    }
}

/// The neighbours of a node are nodes of the graph, and so is a node with neighbours.
proof fn lemma_nbrs_in_nodes(g: Seq<(Memory, Vec<Memory>)>, k: Seq<char>)
    ensures
        forall|i: int| 0 <= i < nbrs(graph_view(g), k).len() ==> graph_nodes(g).contains(#[trigger] nbrs(graph_view(g), k)[i]),
        nbrs(graph_view(g), k).len() > 0 ==> graph_nodes(g).contains(k),
    decreases g.len(),
{
    if g.len() > 0 {
        lemma_nbrs_in_nodes(g.drop_last(), k);
        let rest = graph_nodes(g.drop_last());
        let whole = graph_nodes(g);
        let tail = memories_view(g.last().1@);
        assert(whole == rest.push(g.last().0@) + tail);
        assert forall|x: Seq<char>| rest.contains(x) implies whole.contains(x) by {
            let i = choose|i: int| 0 <= i < rest.len() && rest[i] == x;
            assert(whole[i] == x);
        }
        if g.last().0@ == k {
            assert(whole[rest.len() as int] == k);
            assert forall|i: int| 0 <= i < tail.len() implies whole.contains(#[trigger] tail[i]) by {
                assert(whole[rest.len() + 1 + i] == tail[i]);
            }
            assert(nbrs(graph_view(g), k) == tail);
        } else {
            assert(glookup(g, k) == glookup(g.drop_last(), k));
            assert(nbrs(graph_view(g), k) == nbrs(graph_view(g.drop_last()), k));
        }
    }
}

/// Whether a node is among the visited ones.
pub(crate) fn is_visited(visited: &Vec<Memory>, node: &Memory) -> (res: bool)
    ensures
        res == memories_view(visited@).to_set().contains(node@),
{
    let mut i: usize = 0;
    while i < visited.len()
        invariant
            i <= visited.len(),
            forall|j: int| 0 <= j < i ==> visited@[j]@ != node@,
        decreases visited.len() - i,
    {
        if visited[i].0 == node.0 {
            proof {
                assert(memories_view(visited@)[i as int] == node@);
            }
            return true;
        }
        i = i + 1;
    }
    false
}

impl WeakReferrer {
    /// Visits the unvisited neighbours of a node that was just marked visited,
    /// then adds the node to the order.
    fn visit_neighbors(
        &self,
        node: &Memory,
        visited: &mut Vec<Memory>,
        order: &mut Vec<Memory>,
        Ghost(fuel): Ghost<nat>,
    )
        requires
            memories_view(old(visited)@).to_set().contains(node@),
            fuel >= count_unvisited(graph_nodes(self.graph@), memories_view(old(visited)@).to_set()) + 2,
        ensures
            memories_view(old(visited)@).to_set().subset_of(memories_view(final(visited)@).to_set()),
            (memories_view(final(visited)@).to_set(), memories_view(final(order)@)) == dfs_after_mark(
                graph_view(self.graph@),
                node@,
                (memories_view(old(visited)@).to_set(), memories_view(old(order)@)),
                fuel,
            ),
        decreases fuel, 1nat,
    {
        let ghost gv = graph_view(self.graph@);
        let ghost nodes = graph_nodes(self.graph@);
        let ghost v0 = memories_view(visited@).to_set();
        let ghost f1 = (fuel - 1) as nat;
        let neighbors = graph_neighbors(&self.graph, node);
        let ghost ns = memories_view(neighbors@);
        let ghost target = dfs_visit_all(gv, ns, (memories_view(visited@).to_set(), memories_view(order@)), f1);
        proof {
            lemma_nbrs_in_nodes(self.graph@, node@);
            assert(ns.skip(0) =~= ns);
        }
        let mut k: usize = 0;
        while k < neighbors.len()
            invariant
                k <= neighbors.len(),
                gv == graph_view(self.graph@),
                nodes == graph_nodes(self.graph@),
                ns == memories_view(neighbors@),
                ns == nbrs(gv, node@),
                forall|i: int| 0 <= i < ns.len() ==> nodes.contains(#[trigger] ns[i]),
                v0.subset_of(memories_view(visited@).to_set()),
                count_unvisited(nodes, v0) + 2 <= fuel,
                f1 == fuel - 1,
                fuel >= 1,
                target == dfs_visit_all(gv, ns.skip(k as int), (memories_view(visited@).to_set(), memories_view(order@)), f1),
            decreases neighbors.len() - k,
        {
            proof {
                assert(ns.skip(k as int).drop_first() =~= ns.skip(k + 1));
                assert(ns.skip(k as int)[0] == ns[k as int]);
            }
            let neighbor = &neighbors[k];
            if !is_visited(visited, neighbor) {
                proof {
                    assert(nodes.contains(ns[k as int]));
                    lemma_count_unvisited_mono(nodes, v0, memories_view(visited@).to_set());
                }
                self.topsort_internal(neighbor, visited, order, Ghost(f1));
            }
            k = k + 1;
        }
        proof {
            assert(ns.skip(neighbors.len() as int) =~= Seq::<Seq<char>>::empty());
        }
        let ghost o0 = order@;
        order.push(node.clone());
        proof {
            assert(memories_view(order@) =~= memories_view(o0).push(node@));
        }
    }

    /// The visit of an unvisited node.
    fn topsort_internal(&self, node: &Memory, visited: &mut Vec<Memory>, order: &mut Vec<Memory>, Ghost(fuel): Ghost<nat>)
        requires
            !memories_view(old(visited)@).to_set().contains(node@),
            graph_nodes(self.graph@).contains(node@),
            fuel >= count_unvisited(graph_nodes(self.graph@), memories_view(old(visited)@).to_set()) + 1,
        ensures
            memories_view(old(visited)@).to_set().subset_of(memories_view(final(visited)@).to_set()),
            (memories_view(final(visited)@).to_set(), memories_view(final(order)@)) == dfs_visit(
                graph_view(self.graph@),
                node@,
                (memories_view(old(visited)@).to_set(), memories_view(old(order)@)),
                fuel,
            ),
        decreases fuel, 2nat,
    {
        let ghost nodes = graph_nodes(self.graph@);
        let ghost v0 = memories_view(visited@).to_set();
        let ghost before = visited@;
        visited.push(node.clone());
        proof {
            assert(memories_view(visited@) =~= memories_view(before).push(node@));
            lemma_to_set_push(memories_view(before), node@);
            lemma_count_unvisited_strict(nodes, v0, memories_view(visited@).to_set(), node@);
        }
        self.visit_neighbors(node, visited, order, Ghost(fuel));
    }

    /// Depth-first search from a node: marks it visited, visits its unvisited
    /// neighbours in order, then adds it to the order.
    pub fn topsort(&self, node: &Memory, visited: &mut Vec<Memory>, order: &mut Vec<Memory>)
        ensures
            (memories_view(final(visited)@).to_set(), memories_view(final(order)@)) == dfs_visit(
                graph_view(self.graph@),
                node@,
                (memories_view(old(visited)@).to_set(), memories_view(old(order)@)),
                dfs_fuel(self.graph@, memories_view(old(visited)@).to_set()),
            ),
    {
        let ghost nodes = graph_nodes(self.graph@);
        let ghost v0 = memories_view(visited@).to_set();
        let ghost fuel = dfs_fuel(self.graph@, v0);
        let ghost before = visited@;
        if !is_visited(visited, node) {
            visited.push(node.clone());
            proof {
                assert(memories_view(visited@) =~= memories_view(before).push(node@));
                lemma_to_set_push(memories_view(before), node@);
                lemma_count_unvisited_mono(nodes, v0, memories_view(visited@).to_set());
            }
        } else {
            proof {
                assert(v0.insert(node@) =~= v0);
            }
        }
        proof {
            assert(memories_view(visited@).to_set() =~= v0.insert(node@));
        }
        self.visit_neighbors(node, visited, order, Ghost(fuel));
    }
}

// ---------------------------------------------------------------------------
// Cycles of closures.

/// Memory locations sorted by their names.
fn sorted_memories(ms: &Vec<Memory>) -> (res: Vec<Memory>)
    ensures
        texts_sorted(memories_view(res@)),
        memories_view(res@).to_multiset() == memories_view(ms@).to_multiset(),
{
    let ghost s = memories_view(ms@);
    let mut out: Vec<Memory> = Vec::new();
    let mut i: usize = 0;
    proof {
        assert(s.take(0) =~= Seq::<Seq<char>>::empty());
        assert(memories_view(out@) =~= Seq::<Seq<char>>::empty());
    }
    while i < ms.len()
        invariant
            i <= ms.len(),
            s == memories_view(ms@),
            texts_sorted(memories_view(out@)),
            memories_view(out@).to_multiset() == s.take(i as int).to_multiset(),
        decreases ms.len() - i,
    {
        let name = &ms[i].0;
        let ghost x = s[i as int];
        let ghost t = memories_view(out@);
        let mut j: usize = 0;
        while j < out.len()
            invariant
                j <= out.len(),
                t == memories_view(out@),
                x == name@,
                forall|m: int| 0 <= m < j ==> !text_less(x, #[trigger] t[m]),
            ensures
                j <= out.len(),
                forall|m: int| 0 <= m < j ==> !text_less(x, #[trigger] t[m]),
                j < out.len() ==> text_less(x, t[j as int]),
            decreases out.len() - j,
        {
            if string_less(name, &out[j].0) {
                break;
            }
            j = j + 1;
        }
        proof {
            lemma_insert_sorted(t, x, j as int);
            assert(s.take(i + 1) =~= s.take(i as int).push(x));
            vstd::seq_lib::to_multiset_build(s.take(i as int), x);
            vstd::seq_lib::to_multiset_insert(t, j as int, x);
        }
        out.insert(j, ms[i].clone());
        proof {
            assert(memories_view(out@) =~= t.insert(j as int, x));
        }
        i = i + 1;
    }
    proof {
        assert(s.take(ms.len() as int) =~= s);
    }
    out
}

/// Whether a chain of `n` references leads from `a` to `b` in a graph.
pub open spec fn greach(g: Map<Seq<char>, Seq<Seq<char>>>, a: Seq<char>, b: Seq<char>, n: nat) -> bool
    decreases n,
{
    if n == 0 {
        a == b
    } else {
        exists|u: Seq<char>| #[trigger] nbrs(g, a).contains(u) && greach(g, u, b, (n - 1) as nat)
    }
}

/// Whether a chain of at least one reference leads from `a` to `b`.
pub open spec fn greach_plus(g: Map<Seq<char>, Seq<Seq<char>>>, a: Seq<char>, b: Seq<char>) -> bool {
    exists|n: nat| n > 0 && #[trigger] greach(g, a, b, n)
}

/// Whether `b` is `a` or is reached from it.
pub open spec fn greaches(g: Map<Seq<char>, Seq<Seq<char>>>, a: Seq<char>, b: Seq<char>) -> bool {
    a == b || greach_plus(g, a, b)
}

/// Whether `a` and `b` lie in the same strongly connected component: each reaches the other.
pub open spec fn same_component(g: Map<Seq<char>, Seq<Seq<char>>>, a: Seq<char>, b: Seq<char>) -> bool {
    greaches(g, a, b) && greaches(g, b, a)
}

/// The closures of the given set that lie in the strongly connected component of `k`.
pub open spec fn component_closures(g: Map<Seq<char>, Seq<Seq<char>>>, fns: Set<Seq<char>>, k: Seq<char>) -> Set<Seq<char>> {
    fns.filter(|x: Seq<char>| same_component(g, k, x))
}

/// A chain followed by one more reference is a chain one longer.
proof fn lemma_greach_extend(g: Map<Seq<char>, Seq<Seq<char>>>, a: Seq<char>, b: Seq<char>, c: Seq<char>, n: nat)
    requires
        greach(g, a, b, n),
        nbrs(g, b).contains(c),
    ensures
        greach(g, a, c, n + 1),
    decreases n,
{
    if n == 0 {
        assert(greach(g, c, c, 0));
    } else {
        let u = choose|u: Seq<char>| #[trigger] nbrs(g, a).contains(u) && greach(g, u, b, (n - 1) as nat);
        lemma_greach_extend(g, u, b, c, (n - 1) as nat);
        assert(greach(g, u, c, n));
    }
}

/// A set closed under references that holds `u` holds everything reached from `u`.
proof fn lemma_closed_holds(g: Map<Seq<char>, Seq<Seq<char>>>, v: Set<Seq<char>>, u: Seq<char>, x: Seq<char>, m: nat)
    requires
        v.contains(u),
        forall|w: Seq<char>, y: Seq<char>| #![trigger v.contains(w), nbrs(g, w).contains(y)]
            v.contains(w) && nbrs(g, w).contains(y) ==> v.contains(y),
        greach(g, u, x, m),
    ensures
        v.contains(x),
    decreases m,
{
    if m > 0 {
        let w = choose|w: Seq<char>| #[trigger] nbrs(g, u).contains(w) && greach(g, w, x, (m - 1) as nat);
        lemma_closed_holds(g, v, w, x, (m - 1) as nat);
    }
}

proof fn lemma_to_set_drop_last(a: Seq<Seq<char>>)
    requires
        a.len() > 0,
    ensures
        a.to_set() == a.drop_last().to_set().insert(a.last()),
{
    assert forall|x: Seq<char>| a.to_set().contains(x) implies a.drop_last().to_set().insert(a.last()).contains(x) by {
        let i = choose|i: int| 0 <= i < a.len() && a[i] == x;
        if i < a.len() - 1 {
            assert(a.drop_last()[i] == x);
        }
    }
    assert forall|x: Seq<char>| a.drop_last().to_set().insert(a.last()).contains(x) implies a.to_set().contains(x) by {
        if x != a.last() {
            let i = choose|i: int| 0 <= i < a.drop_last().len() && a.drop_last()[i] == x;
            assert(a[i] == x);
        } else {
            assert(a[a.len() - 1] == x);
        }
    }
    assert(a.to_set() =~= a.drop_last().to_set().insert(a.last()));
}

proof fn lemma_take_next(s: Seq<Seq<char>>, j: int, x: Seq<char>)
    requires
        0 <= j < s.len(),
    ensures
        s.take(j + 1).contains(x) <==> (s.take(j).contains(x) || x == s[j]),
{
    assert(s.take(j + 1) =~= s.take(j).push(s[j]));
    lemma_push_contains(s.take(j), s[j], x);
}

proof fn lemma_push_contains(s: Seq<Seq<char>>, y: Seq<char>, x: Seq<char>)
    ensures
        s.push(y).contains(x) <==> (s.contains(x) || x == y),
{
    if s.contains(x) {
        let t = choose|t: int| 0 <= t < s.len() && s[t] == x;
        assert(s.push(y)[t] == x);
    }
    if x == y {
        assert(s.push(y)[s.len() as int] == x);
    }
    if s.push(y).contains(x) && x != y {
        let t = choose|t: int| 0 <= t < s.push(y).len() && s.push(y)[t] == x;
        assert(s[t] == x);
    }
}

/// The nodes reached from `start` by a chain of at least one reference.
fn reached_from(g: &Graph, start: &Memory) -> (res: Vec<Memory>)
    ensures
        forall|x: Seq<char>| #[trigger] memories_view(res@).to_set().contains(x) <==> greach_plus(graph_view(g@), start@, x),
{
    let ghost gv = graph_view(g@);
    let ghost nodes = graph_nodes(g@);
    let mut visited: Vec<Memory> = Vec::new();
    let mut stack: Vec<Memory> = graph_neighbors(g, start);
    proof {
        lemma_nbrs_in_nodes(g@, start@);
        assert(memories_view(visited@).to_set() =~= Set::<Seq<char>>::empty());
        assert forall|y: Seq<char>| #[trigger] memories_view(stack@).to_set().contains(y) implies nodes.contains(y)
            && greach_plus(gv, start@, y) by {
            let i = choose|i: int| 0 <= i < memories_view(stack@).len() && memories_view(stack@)[i] == y;
            assert(nbrs(gv, start@)[i] == y);
            assert(nbrs(gv, start@).contains(y));
            assert(greach(gv, y, y, 0));
            assert(greach(gv, start@, y, 1));
        }
        assert forall|y: Seq<char>| #[trigger] nbrs(gv, start@).contains(y) implies memories_view(stack@).to_set().contains(y) by {
        }
    }
    while stack.len() > 0
        invariant
            gv == graph_view(g@),
            nodes == graph_nodes(g@),
            forall|y: Seq<char>| #[trigger] memories_view(stack@).to_set().contains(y) ==> nodes.contains(y) && greach_plus(gv, start@, y),
            forall|y: Seq<char>| #[trigger] memories_view(visited@).to_set().contains(y) ==> greach_plus(gv, start@, y),
            forall|y: Seq<char>| #[trigger] nbrs(gv, start@).contains(y)
                ==> memories_view(visited@).to_set().contains(y) || memories_view(stack@).to_set().contains(y),
            forall|w: Seq<char>, y: Seq<char>| #![trigger memories_view(visited@).to_set().contains(w), nbrs(gv, w).contains(y)]
                memories_view(visited@).to_set().contains(w) && nbrs(gv, w).contains(y)
                    ==> memories_view(visited@).to_set().contains(y) || memories_view(stack@).to_set().contains(y),
        decreases count_unvisited(nodes, memories_view(visited@).to_set()), stack.len(),
    {
        let ghost s0 = memories_view(stack@);
        let ghost v0 = memories_view(visited@).to_set();
        let x = stack.pop().unwrap();
        proof {
            assert(memories_view(stack@) =~= s0.drop_last());
            assert(s0.last() == x@);
            lemma_to_set_drop_last(s0);
            assert(s0[s0.len() - 1] == x@);
            assert(s0.to_set().contains(x@));
            assert forall|y: Seq<char>| #[trigger] memories_view(stack@).to_set().contains(y)
                implies nodes.contains(y) && greach_plus(gv, start@, y) by {
                assert(s0.to_set().contains(y));
            }
        }
        if !is_visited(&visited, &x) {
            let ghost vb = visited@;
            visited.push(x.clone());
            proof {
                assert(memories_view(visited@) =~= memories_view(vb).push(x@));
                lemma_to_set_push(memories_view(vb), x@);
                lemma_count_unvisited_strict(nodes, v0, memories_view(visited@).to_set(), x@);
            }
            let ns = graph_neighbors(g, &x);
            let ghost v1 = memories_view(visited@).to_set();
            let ghost s1 = memories_view(stack@);
            let ghost n = choose|n: nat| n > 0 && #[trigger] greach(gv, start@, x@, n);
            proof {
                lemma_nbrs_in_nodes(g@, x@);
            }
            let mut j: usize = 0;
            while j < ns.len()
                invariant
                    j <= ns.len(),
                    gv == graph_view(g@),
                    nodes == graph_nodes(g@),
                    memories_view(ns@) == nbrs(gv, x@),
                    forall|i: int| 0 <= i < memories_view(ns@).len() ==> nodes.contains(#[trigger] memories_view(ns@)[i]),
                    n > 0,
                    greach(gv, start@, x@, n),
                    v1 == memories_view(visited@).to_set(),
                    memories_view(stack@).to_set() == s1.to_set() + memories_view(ns@).take(j as int).to_set(),
                    forall|y: Seq<char>| #[trigger] s1.to_set().contains(y) ==> nodes.contains(y) && greach_plus(gv, start@, y),
                decreases ns.len() - j,
            {
                let ghost sb = memories_view(stack@);
                stack.push(ns[j].clone());
                proof {
                    assert(memories_view(stack@) =~= sb.push(ns@[j as int]@));
                    lemma_to_set_push(sb, ns@[j as int]@);
                    assert(memories_view(ns@)[j as int] == ns@[j as int]@);
                    lemma_to_set_push(memories_view(ns@).take(j as int), ns@[j as int]@);
                    assert(memories_view(ns@).take(j + 1) =~= memories_view(ns@).take(j as int).push(ns@[j as int]@));
                    assert(memories_view(stack@).to_set() =~= s1.to_set() + memories_view(ns@).take(j + 1).to_set());
                }
                j = j + 1;
            }
            proof {
                let nv = memories_view(ns@);
                assert(nv.take(nv.len() as int) =~= nv);
                let st = memories_view(stack@).to_set();
                assert forall|y: Seq<char>| #[trigger] st.contains(y) implies nodes.contains(y) && greach_plus(gv, start@, y) by {
                    if !s1.to_set().contains(y) {
                        assert(nv.to_set().contains(y));
                        let i = choose|i: int| 0 <= i < nv.len() && nv[i] == y;
                        assert(nodes.contains(nv[i]));
                        lemma_greach_extend(gv, start@, x@, y, n);
                        assert(greach(gv, start@, y, n + 1));
                    }
                }
                assert forall|y: Seq<char>| #[trigger] v1.contains(y) implies greach_plus(gv, start@, y) by {
                    if y != x@ {
                        assert(v0.contains(y));
                    }
                }
                assert forall|y: Seq<char>| #[trigger] nbrs(gv, start@).contains(y) implies v1.contains(y) || st.contains(y) by {
                    if !v0.contains(y) && !s1.to_set().contains(y) {
                        assert(y == x@);
                    }
                }
                assert forall|w: Seq<char>, y: Seq<char>| #![trigger v1.contains(w), nbrs(gv, w).contains(y)]
                    v1.contains(w) && nbrs(gv, w).contains(y) implies v1.contains(y) || st.contains(y) by {
                    if w == x@ {
                        let i = choose|i: int| 0 <= i < nv.len() && nv[i] == y;
                        assert(nv.to_set().contains(y));
                    } else {
                        assert(v0.contains(w));
                        if !v0.contains(y) && !s1.to_set().contains(y) {
                            assert(y == x@);
                        }
                    }
                }
            }
        } else {
            proof {
                let st = memories_view(stack@).to_set();
                assert forall|y: Seq<char>| #[trigger] nbrs(gv, start@).contains(y) implies v0.contains(y) || st.contains(y) by {
                    if !v0.contains(y) && y != x@ {
                        assert(s0.to_set().contains(y));
                    }
                }
                assert forall|w: Seq<char>, y: Seq<char>| #![trigger v0.contains(w), nbrs(gv, w).contains(y)]
                    v0.contains(w) && nbrs(gv, w).contains(y) implies v0.contains(y) || st.contains(y) by {
                    if !v0.contains(y) && y != x@ {
                        assert(s0.to_set().contains(y));
                    }
                }
            }
        }
    }
    proof {
        let v = memories_view(visited@).to_set();
        assert(memories_view(stack@).to_set() =~= Set::<Seq<char>>::empty());
        assert forall|x: Seq<char>| greach_plus(gv, start@, x) implies #[trigger] v.contains(x) by {
            let n = choose|n: nat| n > 0 && #[trigger] greach(gv, start@, x, n);
            let u = choose|u: Seq<char>| #[trigger] nbrs(gv, start@).contains(u) && greach(gv, u, x, (n - 1) as nat);
            lemma_closed_holds(gv, v, u, x, (n - 1) as nat);
        }
    }
    visited
}

/// The locations of a list, each once, in the order they first come.
fn distinct_memories(ms: &Vec<Memory>) -> (res: Vec<Memory>)
    ensures
        memories_view(res@).no_duplicates(),
        memories_view(res@).to_set() == memories_view(ms@).to_set(),
{
    let ghost s = memories_view(ms@);
    let mut out: Vec<Memory> = Vec::new();
    let mut i: usize = 0;
    proof {
        assert(memories_view(out@).to_set() =~= s.take(0).to_set());
    }
    while i < ms.len()
        invariant
            i <= ms.len(),
            s == memories_view(ms@),
            memories_view(out@).no_duplicates(),
            memories_view(out@).to_set() == s.take(i as int).to_set(),
        decreases ms.len() - i,
    {
        proof {
            assert(s.take(i + 1) =~= s.take(i as int).push(s[i as int]));
            lemma_to_set_push(s.take(i as int), s[i as int]);
        }
        if !is_visited(&out, &ms[i]) {
            let ghost ob = memories_view(out@);
            out.push(ms[i].clone());
            proof {
                assert(memories_view(out@) =~= ob.push(s[i as int]));
                lemma_to_set_push(ob, s[i as int]);
                assert(!ob.contains(s[i as int]));
            }
        } else {
            proof {
                assert(s.take(i as int).to_set().insert(s[i as int]) =~= s.take(i as int).to_set());
            }
        }
        i = i + 1;
    }
    proof {
        assert(s.take(ms.len() as int) =~= s);
    }
    out
}

impl WeakReferrer {
    /// Finds the cycles of closures that refer to each other through their
    /// environments: each closure that lies on a cycle of references gets
    /// the closures of its strongly connected component, sorted by name.
    /// Leaves the reversed graph in `self.graph`.
    pub fn detect_closure_cycles(&mut self, statements: &Vec<Statement>) -> (res: ClosureCycles)
        ensures
            translation_view(res.fn_translation@) == statements_parts(statements_view(statements@)).translation,
            forall|a: Seq<char>, b: Seq<char>|
                #[trigger] nbrs(graph_view(final(self).graph@), a).contains(b)
                    == nbrs(statements_parts(statements_view(statements@)).graph, b).contains(a),
            forall|a: Seq<char>, b: Seq<char>|
                #[trigger] nbrs(graph_view(final(self).graph@), a).to_multiset().count(b)
                    == nbrs(statements_parts(statements_view(statements@)).graph, b).to_multiset().count(a),
            forall|k: Seq<char>| #[trigger] graph_view(final(self).graph@).contains_key(k) ==> graph_view(final(self).graph@)[k].len() > 0,
            forall|k: Seq<char>| #[trigger] glookup(res.cycles@, k) is Some
                <==> statements_parts(statements_view(statements@)).fns.contains(k)
                    && greach_plus(statements_parts(statements_view(statements@)).graph, k, k),
            forall|k: Seq<char>| #[trigger] glookup(res.cycles@, k) is Some ==> {
                let members = glookup(res.cycles@, k)->0;
                &&& texts_sorted(members)
                &&& members.no_duplicates()
                &&& members.to_set() == component_closures(
                    statements_parts(statements_view(statements@)).graph,
                    statements_parts(statements_view(statements@)).fns,
                    k,
                )
            },
    {
        let ghost parts = statements_parts(statements_view(statements@));
        let (graph, fns, translation) = self.construct_graph(statements);
        let ghost gv = graph_view(graph@);
        let ghost fv = memories_view(fns@).to_set();
        let closures = distinct_memories(&fns);
        let ghost cv = memories_view(closures@);
        let mut cycles: Vec<(Memory, Vec<Memory>)> = Vec::new();
        let mut i: usize = 0;
        while i < closures.len()
            invariant
                i <= closures.len(),
                gv == graph_view(graph@),
                gv == parts.graph,
                fv == parts.fns,
                cv == memories_view(closures@),
                cv.no_duplicates(),
                cv.to_set() == fv,
                forall|k: Seq<char>| #[trigger] glookup(cycles@, k) is Some <==> cv.take(i as int).contains(k) && greach_plus(gv, k, k),
                forall|k: Seq<char>| #[trigger] glookup(cycles@, k) is Some ==> {
                    let members = glookup(cycles@, k)->0;
                    &&& texts_sorted(members)
                    &&& members.no_duplicates()
                    &&& members.to_set() == component_closures(gv, fv, k)
                },
            decreases closures.len() - i,
        {
            let f = &closures[i];
            let ghost fk = cv[i as int];
            let around = reached_from(&graph, f);
            proof {
                assert(f@ == fk);
                assert(cv.take(i + 1) =~= cv.take(i as int).push(fk));
            }
            if is_visited(&around, f) {
                let mut members: Vec<Memory> = Vec::new();
                let mut j: usize = 0;
                while j < closures.len()
                    invariant
                        j <= closures.len(),
                        gv == graph_view(graph@),
                        cv == memories_view(closures@),
                        cv.no_duplicates(),
                        f@ == fk,
                        forall|x: Seq<char>| #[trigger] memories_view(around@).to_set().contains(x) <==> greach_plus(gv, fk, x),
                        memories_view(members@).no_duplicates(),
                        forall|x: Seq<char>| #[trigger] memories_view(members@).contains(x)
                            <==> cv.take(j as int).contains(x) && same_component(gv, fk, x),
                    decreases closures.len() - j,
                {
                    let g = &closures[j];
                    let ghost gk = cv[j as int];
                    let inside = if g.0 == f.0 {
                        true
                    } else if is_visited(&around, g) {
                        let back = reached_from(&graph, g);
                        is_visited(&back, f)
                    } else {
                        false
                    };
                    proof {
                        assert(g@ == gk);
                        assert(cv.take(j + 1) =~= cv.take(j as int).push(gk));
                        assert(inside == same_component(gv, fk, gk));
                        assert(!cv.take(j as int).contains(gk)) by {
                            if cv.take(j as int).contains(gk) {
                                let tk = cv.take(j as int); let t = choose|t: int| 0 <= t < tk.len() && tk[t] == gk;
                                assert(cv[t] == cv[j as int]);
                            }
                        }
                    }
                    if inside {
                        let ghost mb = memories_view(members@);
                        members.push(g.clone());
                        proof {
                            assert(memories_view(members@) =~= mb.push(gk));
                            assert(!mb.contains(gk));
                            assert forall|x: Seq<char>| #[trigger] memories_view(members@).contains(x)
                                <==> cv.take(j + 1).contains(x) && same_component(gv, fk, x) by {
                                lemma_push_contains(mb, gk, x);
                                lemma_take_next(cv, j as int, x);
                                if memories_view(members@).contains(x) && x != gk {
                                    let t = choose|t: int| 0 <= t < memories_view(members@).len() && memories_view(members@)[t] == x;
                                    assert(mb[t] == x);
                                }
                                if x == gk {
                                    assert(memories_view(members@)[mb.len() as int] == x);
                                }
                                if cv.take(j + 1).contains(x) && x != gk {
                                    let tk = cv.take(j + 1); let t = choose|t: int| 0 <= t < tk.len() && tk[t] == x;
                                    assert(cv.take(j as int)[t] == x);
                                }
                                if mb.contains(x) {
                                    let t = choose|t: int| 0 <= t < mb.len() && mb[t] == x;
                                    assert(memories_view(members@)[t] == x);
                                }
                            }
                        }
                    } else {
                        proof {
                            assert forall|x: Seq<char>| #[trigger] memories_view(members@).contains(x)
                                <==> cv.take(j + 1).contains(x) && same_component(gv, fk, x) by {
                                lemma_take_next(cv, j as int, x);
                                if cv.take(j + 1).contains(x) && x != gk {
                                    let tk = cv.take(j + 1); let t = choose|t: int| 0 <= t < tk.len() && tk[t] == x;
                                    assert(cv.take(j as int)[t] == x);
                                }
                                if cv.take(j as int).contains(x) {
                                    let tk = cv.take(j as int); let t = choose|t: int| 0 <= t < tk.len() && tk[t] == x;
                                    assert(cv.take(j + 1)[t] == x);
                                }
                            }
                        }
                    }
                    j = j + 1;
                }
                let cycle = sorted_memories(&members);
                let ghost mv = memories_view(members@);
                let ghost yv = memories_view(cycle@);
                proof {
                    assert(cv.take(closures.len() as int) =~= cv);
                    mv.lemma_multiset_has_no_duplicates();
                    assert forall|x: Seq<char>| #[trigger] yv.to_multiset().contains(x) implies yv.to_multiset().count(x) == 1 by {
                    }
                    yv.lemma_multiset_has_no_duplicates_conv();
                    assert forall|x: Seq<char>| yv.to_set().contains(x) <==> #[trigger] component_closures(gv, fv, fk).contains(x) by {
                        vstd::seq_lib::to_multiset_contains(yv, x);
                        vstd::seq_lib::to_multiset_contains(mv, x);
                        if cv.contains(x) {
                            assert(cv.to_set().contains(x));
                        }
                        if fv.contains(x) {
                            assert(cv.to_set().contains(x));
                        }
                    }
                    assert(yv.to_set() =~= component_closures(gv, fv, fk));
                }
                let ghost before = cycles@;
                let entry = (f.clone(), cycle);
                cycles.push(entry);
                proof {
                    assert(cycles@ == before.push(entry));
                    assert forall|k: Seq<char>| #[trigger] glookup(cycles@, k) is Some <==> cv.take(i + 1).contains(k) && greach_plus(gv, k, k) by {
                        lemma_glookup_push(before, entry, k);
                        if k != fk && cv.take(i + 1).contains(k) {
                            let tk = cv.take(i + 1); let t = choose|t: int| 0 <= t < tk.len() && tk[t] == k;
                            assert(cv.take(i as int)[t] == k);
                        }
                        if cv.take(i as int).contains(k) {
                            let tk = cv.take(i as int); let t = choose|t: int| 0 <= t < tk.len() && tk[t] == k;
                            assert(cv.take(i + 1)[t] == k);
                        }
                        if k == fk {
                            assert(cv.take(i + 1)[i as int] == k);
                        }
                    }
                    assert forall|k: Seq<char>| #[trigger] glookup(cycles@, k) is Some implies {
                        let members = glookup(cycles@, k)->0;
                        &&& texts_sorted(members)
                        &&& members.no_duplicates()
                        &&& members.to_set() == component_closures(gv, fv, k)
                    } by {
                        lemma_glookup_push(before, entry, k);
                    }
                }
            } else {
                proof {
                    assert forall|k: Seq<char>| #[trigger] glookup(cycles@, k) is Some <==> cv.take(i + 1).contains(k) && greach_plus(gv, k, k) by {
                        if k != fk && cv.take(i + 1).contains(k) {
                            let tk = cv.take(i + 1); let t = choose|t: int| 0 <= t < tk.len() && tk[t] == k;
                            assert(cv.take(i as int)[t] == k);
                        }
                        if cv.take(i as int).contains(k) {
                            let tk = cv.take(i as int); let t = choose|t: int| 0 <= t < tk.len() && tk[t] == k;
                            assert(cv.take(i + 1)[t] == k);
                        }
                    }
                }
            }
            i = i + 1;
        }
        proof {
            assert(cv.take(closures.len() as int) =~= cv);
            assert forall|k: Seq<char>| cv.contains(k) <==> #[trigger] fv.contains(k) by {
                assert(cv.to_set().contains(k) == cv.contains(k));
            }
        }
        self.graph = self.transpose(&graph);
        ClosureCycles { fn_translation: translation, cycles }
    }
}


// ---------------------------------------------------------------------------
// What the graph records.

/// Whether a statement assigns location `t`.
pub open spec fn assigns_to(t: Seq<char>) -> spec_fn(StatementModel) -> bool {
    |s: StatementModel| s matches StatementModel::Assignment(x, _) && x == t
}

/// Whether a statement puts a closure with an environment into location `t`.
pub open spec fn instantiates_closure_in(t: Seq<char>) -> spec_fn(StatementModel) -> bool {
    |s: StatementModel| s matches StatementModel::Assignment(x, ExpressionModel::ClosureInstantiation(_, Some(_))) && x == t
}

/// Whether a statement instantiates a closure whose environment is memory `m`.
pub open spec fn uses_environment(m: Seq<char>) -> spec_fn(StatementModel) -> bool {
    |s: StatementModel| s matches StatementModel::Assignment(
        _,
        ExpressionModel::ClosureInstantiation(_, Some(ValueModel::Memory(e))),
    ) && e == m
}

proof fn lemma_statement_parts_record(p: GraphParts, s: StatementModel, t: Seq<char>)
    ensures
        statement_parts(p, s).graph.contains_key(t)
            == (p.graph.contains_key(t) || some_statement(nested_statements(s), assigns_to(t))),
        statement_parts(p, s).fns.contains(t)
            == (p.fns.contains(t) || some_statement(nested_statements(s), instantiates_closure_in(t))),
        statement_parts(p, s).translation.contains_key(t)
            == (p.translation.contains_key(t) || some_statement(nested_statements(s), uses_environment(t))),
    decreases s, 0nat,
{
    lemma_some_statement_one(s, assigns_to(t));
    lemma_some_statement_one(s, instantiates_closure_in(t));
    lemma_some_statement_one(s, uses_environment(t));
    match s {
        StatementModel::If(_, a, b) => {
            lemma_statements_parts_record(a, t);
            lemma_statements_parts_record(b, t);
            let ps = seq![s];
            let pa = all_statements(a);
            let pb = all_statements(b);
            lemma_some_statement_add(ps, pa, assigns_to(t));
            lemma_some_statement_add(ps + pa, pb, assigns_to(t));
            lemma_some_statement_add(ps, pa, instantiates_closure_in(t));
            lemma_some_statement_add(ps + pa, pb, instantiates_closure_in(t));
            lemma_some_statement_add(ps, pa, uses_environment(t));
            lemma_some_statement_add(ps + pa, pb, uses_environment(t));
        },
        StatementModel::Match(_, _, bs, _) => {
            lemma_branches_parts_record(p, bs, t);
            let ps = seq![s];
            let pb = branches_statements(bs);
            lemma_some_statement_add(ps, pb, assigns_to(t));
            lemma_some_statement_add(ps, pb, instantiates_closure_in(t));
            lemma_some_statement_add(ps, pb, uses_environment(t));
        },
        _ => {},
    }
}

proof fn lemma_branches_parts_record(p: GraphParts, bs: Seq<(Option<Seq<char>>, Seq<StatementModel>)>, t: Seq<char>)
    ensures
        branches_parts(p, bs).graph.contains_key(t)
            == (p.graph.contains_key(t) || some_statement(branches_statements(bs), assigns_to(t))),
        branches_parts(p, bs).fns.contains(t)
            == (p.fns.contains(t) || some_statement(branches_statements(bs), instantiates_closure_in(t))),
        branches_parts(p, bs).translation.contains_key(t)
            == (p.translation.contains_key(t) || some_statement(branches_statements(bs), uses_environment(t))),
    decreases bs, 0nat,
{
    if bs.len() > 0 {
        lemma_branches_parts_record(p, bs.drop_last(), t);
        lemma_statements_parts_record(bs.last().1, t);
        let a = branches_statements(bs.drop_last());
        let b = all_statements(bs.last().1);
        lemma_some_statement_add(a, b, assigns_to(t));
        lemma_some_statement_add(a, b, instantiates_closure_in(t));
        lemma_some_statement_add(a, b, uses_environment(t));
    }
}

proof fn lemma_statements_parts_record(st: Seq<StatementModel>, t: Seq<char>)
    ensures
        statements_parts(st).graph.contains_key(t) == some_statement(all_statements(st), assigns_to(t)),
        statements_parts(st).fns.contains(t) == some_statement(all_statements(st), instantiates_closure_in(t)),
        statements_parts(st).translation.contains_key(t) == some_statement(all_statements(st), uses_environment(t)),
    decreases st, 1nat,
{
    if st.len() > 0 {
        lemma_statements_parts_record(st.drop_last(), t);
        lemma_statement_parts_record(statements_parts(st.drop_last()), st.last(), t);
        let a = all_statements(st.drop_last());
        let b = nested_statements(st.last());
        lemma_some_statement_add(a, b, assigns_to(t));
        lemma_some_statement_add(a, b, instantiates_closure_in(t));
        lemma_some_statement_add(a, b, uses_environment(t));
    }
}

/// The graph of statements has a node for exactly the locations that some
/// statement assigns, at any depth in the branches of conditionals and
/// matches; a location holds a closure with an environment exactly when some
/// statement instantiates one into it; and a memory is mapped to a closure's
/// function exactly when some instantiation uses it as the environment.
pub proof fn law_graph_records_every_assignment(st: Seq<StatementModel>, t: Seq<char>)
    ensures
        statements_parts(st).graph.contains_key(t) == some_statement(all_statements(st), assigns_to(t)),
        statements_parts(st).fns.contains(t) == some_statement(all_statements(st), instantiates_closure_in(t)),
        statements_parts(st).translation.contains_key(t) == some_statement(all_statements(st), uses_environment(t)),
{
    lemma_statements_parts_record(st, t);
}

} // verus!
