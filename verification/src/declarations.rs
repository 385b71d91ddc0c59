//! The declarations that machine statements make: which memory locations a
//! block of statements declares with a type, and which it only assigns.

use vstd::prelude::*;
use crate::machine::{
    lemma_if_view, lemma_match_statement_view, match_branch_view, statements_view, Assignment, Declaration,
    Expression, ExpressionModel, FnCall, FnType, IfStatement, MachineType, MachineTypeModel, MatchBranch, Memory,
    Statement, StatementModel,
};

verus! {

/// What the statements do with a memory location: they assign it without
/// declaring it, with the type of the call that produced it where known, or
/// they declare it with a type.
pub enum AllocationState {
    Undeclared(Option<MachineType>),
    Declared(MachineType),
}

/// The model of an allocation state.
pub enum StateModel {
    Undeclared(Option<MachineTypeModel>),
    Declared(MachineTypeModel),
}

pub open spec fn state_view(s: AllocationState) -> StateModel {
    match s {
        AllocationState::Undeclared(None) => StateModel::Undeclared(None),
        AllocationState::Undeclared(Some(t)) => StateModel::Undeclared(Some(t@)),
        AllocationState::Declared(t) => StateModel::Declared(t@),
    }
}

impl View for AllocationState {
    type V = StateModel;

    open spec fn view(&self) -> StateModel {
        state_view(*self)
    }
}

/// The state of each memory location, each location listed once.
pub type Declarations = Vec<(Memory, AllocationState)>;

/// The memory locations of a list of declarations, in order.
pub open spec fn decl_keys(d: Seq<(Memory, AllocationState)>) -> Seq<Seq<char>> {
    d.map_values(|p: (Memory, AllocationState)| p.0@)
}

/// Whether no location is listed twice.
pub open spec fn decls_distinct(d: Seq<(Memory, AllocationState)>) -> bool {
    decl_keys(d).no_duplicates()
}

/// The state listed for a location.
pub open spec fn dlookup(d: Seq<(Memory, AllocationState)>, k: Seq<char>) -> Option<StateModel>
    decreases d.len(),
{
    if d.len() == 0 {
        None
    } else if d.last().0@ == k {
        Some(d.last().1@)
    } else {
        dlookup(d.drop_last(), k)
    }
}

/// The model of a list of declarations: a map from locations to their states.
pub open spec fn decls_view(d: Seq<(Memory, AllocationState)>) -> Map<Seq<char>, StateModel> {
    Map::new(|k: Seq<char>| dlookup(d, k) is Some, |k: Seq<char>| dlookup(d, k)->0)
}

/// The states of statements run one after the other: a location declared by
/// either is declared, with the type the first gave it where both declare it.
pub open spec fn merge_serial(a: Map<Seq<char>, StateModel>, b: Map<Seq<char>, StateModel>) -> Map<Seq<char>, StateModel> {
    Map::new(
        |k: Seq<char>| a.contains_key(k) || b.contains_key(k),
        |k: Seq<char>| if a.contains_key(k) && b.contains_key(k) {
            if b[k] is Declared && a[k] is Undeclared { b[k] } else { a[k] }
        } else if a.contains_key(k) {
            a[k]
        } else {
            b[k]
        },
    )
}

/// The state of a location that two alternatives both handle.
pub open spec fn combine_states(x: StateModel, y: StateModel) -> StateModel {
    match (x, y) {
        (StateModel::Undeclared(t1), StateModel::Undeclared(t2)) => StateModel::Undeclared(
            if t1 is Some { t1 } else { t2 },
        ),
        (StateModel::Undeclared(_), StateModel::Declared(t)) => StateModel::Undeclared(Some(t)),
        (StateModel::Declared(t), StateModel::Undeclared(_)) => StateModel::Undeclared(Some(t)),
        (StateModel::Declared(t1), StateModel::Declared(_)) => StateModel::Declared(t1),
    }
}

/// The states of alternatives: the locations both handle, with their states combined.
pub open spec fn merge_parallel(a: Map<Seq<char>, StateModel>, b: Map<Seq<char>, StateModel>) -> Map<Seq<char>, StateModel> {
    Map::new(|k: Seq<char>| a.contains_key(k) && b.contains_key(k), |k: Seq<char>| combine_states(a[k], b[k]))
}

/// The type that a function of a type returns.
pub open spec fn return_type(t: MachineTypeModel) -> MachineTypeModel {
    match t {
        MachineTypeModel::Function(_, r) => *r,
        _ => t,
    }
}

/// The states that a statement gives the locations it handles.
pub open spec fn statement_decls(s: StatementModel) -> Map<Seq<char>, StateModel>
    decreases s, 0nat,
{
    match s {
        StatementModel::Assignment(target, ExpressionModel::FnCall(_, t, _)) =>
            map![target => StateModel::Undeclared(Some(return_type(t)))],
        StatementModel::Assignment(target, _) => map![target => StateModel::Undeclared(None)],
        StatementModel::Declaration(t, m) => map![m => StateModel::Declared(t)],
        StatementModel::If(_, t, f) => merge_serial(statements_decls(t), statements_decls(f)),
        StatementModel::Match(_, _, bs, _) => branches_decls(bs),
        _ => Map::empty(),
    }
}

pub open spec fn branches_decls(bs: Seq<(Option<Seq<char>>, Seq<StatementModel>)>) -> Map<Seq<char>, StateModel>
    decreases bs, 0nat,
{
    if bs.len() == 0 {
        Map::empty()
    } else {
        merge_serial(branches_decls(bs.drop_last()), statements_decls(bs.last().1))
    }
}

/// The states that statements run one after the other give the locations they handle.
pub open spec fn statements_decls(st: Seq<StatementModel>) -> Map<Seq<char>, StateModel>
    decreases st, 1nat,
{
    if st.len() == 0 {
        Map::empty()
    } else {
        merge_serial(statements_decls(st.drop_last()), statement_decls(st.last()))
    }
}

/// The declarations of the declared locations of a list, in order.
pub open spec fn declared_statements(d: Seq<(Memory, AllocationState)>) -> Seq<StatementModel>
    decreases d.len(),
{
    if d.len() == 0 {
        Seq::empty()
    } else {
        let rest = declared_statements(d.drop_last());
        match d.last().1@ {
            StateModel::Declared(t) => rest.push(StatementModel::Declaration(t, d.last().0@)),
            _ => rest,
        }
    }
}

/// A statement without the declarations of some locations, in its branches
/// too; `None` where it is such a declaration itself.
pub open spec fn removed_statement(s: StatementModel, ms: Set<Seq<char>>) -> Option<StatementModel>
    decreases s, 0nat,
{
    match s {
        StatementModel::Declaration(t, m) => if ms.contains(m) { None } else { Some(s) },
        StatementModel::If(c, t, f) => Some(StatementModel::If(c, removed_statements(t, ms), removed_statements(f, ms))),
        StatementModel::Match(v, names, bs, aux) => Some(StatementModel::Match(v, names, removed_branches(bs, ms), aux)),
        _ => Some(s),
    }
}

pub open spec fn removed_statements(st: Seq<StatementModel>, ms: Set<Seq<char>>) -> Seq<StatementModel>
    decreases st, 1nat,
{
    if st.len() == 0 {
        Seq::empty()
    } else {
        let rest = removed_statements(st.drop_last(), ms);
        match removed_statement(st.last(), ms) {
            Some(x) => rest.push(x),
            None => rest,
        }
    }
}

pub open spec fn removed_branches(bs: Seq<(Option<Seq<char>>, Seq<StatementModel>)>, ms: Set<Seq<char>>)
    -> Seq<(Option<Seq<char>>, Seq<StatementModel>)>
    decreases bs, 0nat,
{
    if bs.len() == 0 {
        Seq::empty()
    } else {
        removed_branches(bs.drop_last(), ms).push((bs.last().0, removed_statements(bs.last().1, ms)))
    }
}

// ---------------------------------------------------------------------------
// Laws of merging.

/// Statements run one after the other declare a location exactly when one of
/// them declares it.
pub proof fn law_serial_declares_either(a: Map<Seq<char>, StateModel>, b: Map<Seq<char>, StateModel>, k: Seq<char>)
    ensures
        (merge_serial(a, b).contains_key(k) && merge_serial(a, b)[k] is Declared)
            == ((a.contains_key(k) && a[k] is Declared) || (b.contains_key(k) && b[k] is Declared)),
{
}

/// Merging with no declarations, before or after, changes nothing.
pub proof fn law_serial_empty(a: Map<Seq<char>, StateModel>)
    ensures
        merge_serial(a, Map::empty()) == a,
        merge_serial(Map::empty(), a) == a,
{
    assert(merge_serial(a, Map::empty()) =~= a);
    assert(merge_serial(Map::empty(), a) =~= a);
}

/// Alternatives declare a location exactly when both declare it, and handle
/// exactly the locations both handle.
pub proof fn law_parallel_declares_both(a: Map<Seq<char>, StateModel>, b: Map<Seq<char>, StateModel>, k: Seq<char>)
    ensures
        merge_parallel(a, b).contains_key(k) == (a.contains_key(k) && b.contains_key(k)),
        (merge_parallel(a, b).contains_key(k) && merge_parallel(a, b)[k] is Declared)
            == (a.contains_key(k) && a[k] is Declared && b.contains_key(k) && b[k] is Declared),
{
}

proof fn lemma_removed_statement_again(s: StatementModel, ms: Set<Seq<char>>)
    requires
        removed_statement(s, ms) is Some,
    ensures
        removed_statement(removed_statement(s, ms)->0, ms) == removed_statement(s, ms),
    decreases s, 0nat,
{
    match s {
        StatementModel::If(c, t, f) => {
            law_remove_declarations_idempotent(t, ms);
            law_remove_declarations_idempotent(f, ms);
        },
        StatementModel::Match(v, names, bs, aux) => {
            lemma_removed_branches_again(bs, ms);
        },
        _ => {},
    }
}

proof fn lemma_removed_branches_again(bs: Seq<(Option<Seq<char>>, Seq<StatementModel>)>, ms: Set<Seq<char>>)
    ensures
        removed_branches(removed_branches(bs, ms), ms) == removed_branches(bs, ms),
    decreases bs, 0nat,
{
    if bs.len() > 0 {
        lemma_removed_branches_again(bs.drop_last(), ms);
        law_remove_declarations_idempotent(bs.last().1, ms);
        let r = removed_branches(bs, ms);
        assert(r.drop_last() == removed_branches(bs.drop_last(), ms));
    }
}

/// Removing the declarations of the same locations a second time changes nothing.
pub proof fn law_remove_declarations_idempotent(st: Seq<StatementModel>, ms: Set<Seq<char>>)
    ensures
        removed_statements(removed_statements(st, ms), ms) == removed_statements(st, ms),
    decreases st, 1nat,
{
    if st.len() > 0 {
        law_remove_declarations_idempotent(st.drop_last(), ms);
        let rest = removed_statements(st.drop_last(), ms);
        match removed_statement(st.last(), ms) {
            Some(x) => {
                lemma_removed_statement_again(st.last(), ms);
                assert(rest.push(x).drop_last() =~= rest);
                assert(rest.push(x).last() == x);
            },
            None => {},
        }
    }
}

/// After removing the declarations of some locations, no statement left is a
/// declaration of one of them.
pub proof fn law_removed_declarations_are_gone(st: Seq<StatementModel>, ms: Set<Seq<char>>, i: int)
    requires
        0 <= i < removed_statements(st, ms).len(),
    ensures
        !(removed_statements(st, ms)[i] matches StatementModel::Declaration(_, m) && ms.contains(m)),
    decreases st.len(),
{
    if st.len() > 0 {
        let rest = removed_statements(st.drop_last(), ms);
        if i < rest.len() {
            law_removed_declarations_are_gone(st.drop_last(), ms, i);
        } else {
            let x = removed_statement(st.last(), ms);
            assert(x is Some);
            assert(removed_statements(st, ms)[i] == x->0);
            match st.last() {
                StatementModel::Declaration(t, m) => {
                    assert(!ms.contains(m));
                },
                _ => {},
            }
        }
    }
}

// ---------------------------------------------------------------------------
// Facts about lists of declarations.

/// A location of a list is found by its last entry.
proof fn lemma_dlookup_index(d: Seq<(Memory, AllocationState)>, j: int)
    requires
        decls_distinct(d),
        0 <= j < d.len(),
    ensures
        dlookup(d, d[j].0@) == Some(d[j].1@),
    decreases d.len(),
{
    if j < d.len() - 1 {
        assert(decl_keys(d)[j] != decl_keys(d)[d.len() - 1]);
        assert(decl_keys(d.drop_last()) =~= decl_keys(d).drop_last());
        lemma_dlookup_index(d.drop_last(), j);
    }
}

/// A location is listed exactly when it is one of the list's locations.
proof fn lemma_dlookup_keys(d: Seq<(Memory, AllocationState)>, k: Seq<char>)
    ensures
        (dlookup(d, k) is Some) == decl_keys(d).contains(k),
    decreases d.len(),
{
    if d.len() > 0 {
        lemma_dlookup_keys(d.drop_last(), k);
        assert(decl_keys(d.drop_last()) =~= decl_keys(d).drop_last());
        if decl_keys(d).contains(k) && d.last().0@ != k {
            let t = choose|t: int| 0 <= t < decl_keys(d).len() && decl_keys(d)[t] == k;
            assert(decl_keys(d.drop_last())[t] == k);
        }
        if d.last().0@ == k {
            assert(decl_keys(d)[d.len() - 1] == k);
        }
    }
}

/// Adding an entry for a new location adds it to the map.
proof fn lemma_decls_push(d: Seq<(Memory, AllocationState)>, e: (Memory, AllocationState))
    requires
        decls_distinct(d),
        !decl_keys(d).contains(e.0@),
    ensures
        decls_distinct(d.push(e)),
        decls_view(d.push(e)) == decls_view(d).insert(e.0@, e.1@),
{
    assert(decl_keys(d.push(e)) =~= decl_keys(d).push(e.0@));
    assert(d.push(e).drop_last() =~= d);
    assert(decls_view(d.push(e)) =~= decls_view(d).insert(e.0@, e.1@));
}

/// Replacing the state of a listed location updates it in the map.
proof fn lemma_decls_set(d: Seq<(Memory, AllocationState)>, j: int, e: (Memory, AllocationState))
    requires
        decls_distinct(d),
        0 <= j < d.len(),
        d[j].0@ == e.0@,
    ensures
        decls_distinct(d.update(j, e)),
        decls_view(d.update(j, e)) == decls_view(d).insert(e.0@, e.1@),
{
    let d2 = d.update(j, e);
    assert(decl_keys(d2) =~= decl_keys(d));
    assert forall|k: Seq<char>| #[trigger] dlookup(d2, k) == if k == e.0@ { Some(e.1@) } else { dlookup(d, k) } by {
        lemma_dlookup_keys(d, k);
        lemma_dlookup_keys(d2, k);
        if k == e.0@ {
            lemma_dlookup_index(d2, j);
        } else if decl_keys(d).contains(k) {
            let t = choose|t: int| 0 <= t < decl_keys(d).len() && decl_keys(d)[t] == k;
            lemma_dlookup_index(d, t);
            lemma_dlookup_index(d2, t);
        }
    }
    assert(decls_view(d2) =~= decls_view(d).insert(e.0@, e.1@));
}

/// A list with one entry maps its location to its state.
proof fn lemma_decls_single(e: (Memory, AllocationState))
    ensures
        decls_distinct(seq![e]),
        decls_view(seq![e]) == map![e.0@ => e.1@],
{
    let empty = Seq::<(Memory, AllocationState)>::empty();
    assert(decl_keys(empty) =~= Seq::<Seq<char>>::empty());
    assert(decls_view(empty) =~= Map::<Seq<char>, StateModel>::empty());
    lemma_decls_push(empty, e);
    assert(empty.push(e) =~= seq![e]);
    assert(decls_view(seq![e]) =~= map![e.0@ => e.1@]);
}

/// A prefix of a list without repeated locations has none either.
proof fn lemma_decls_prefix_distinct(d: Seq<(Memory, AllocationState)>, i: int)
    requires
        decls_distinct(d),
        0 <= i < d.len(),
    ensures
        decls_distinct(d.take(i)),
        !decl_keys(d.take(i)).contains(d[i].0@),
        d.take(i + 1) == d.take(i).push(d[i]),
{
    assert(decl_keys(d.take(i)) =~= decl_keys(d).take(i));
    assert(d.take(i + 1) =~= d.take(i).push(d[i]));
    if decl_keys(d.take(i)).contains(d[i].0@) {
        let t = choose|t: int| 0 <= t < decl_keys(d.take(i)).len() && decl_keys(d.take(i))[t] == d[i].0@;
        assert(decl_keys(d)[t] == decl_keys(d)[i]);
    }
}

/// A copy of an allocation state.
fn clone_state(state: &AllocationState) -> (res: AllocationState)
    ensures
        res@ == state@,
{
    match state {
        AllocationState::Undeclared(None) => AllocationState::Undeclared(None),
        AllocationState::Undeclared(Some(t)) => AllocationState::Undeclared(Some(t.clone())),
        AllocationState::Declared(t) => AllocationState::Declared(t.clone()),
    }
}

/// The index of the entry of a location, if it is listed.
fn find_declaration(declarations: &Declarations, memory: &Memory) -> (res: Option<usize>)
    ensures
        match res {
            Some(j) => j < declarations@.len() && declarations@[j as int].0@ == memory@,
            None => !decl_keys(declarations@).contains(memory@),
        },
{
    let mut i: usize = 0;
    while i < declarations.len()
        invariant
            i <= declarations.len(),
            forall|t: int| 0 <= t < i ==> #[trigger] decl_keys(declarations@)[t] != memory@,
        decreases declarations.len() - i,
    {
        if declarations[i].0.0 == memory.0 {
            return Some(i);
        }
        i = i + 1;
    }
    None
}

/// The combined state of a location that two alternatives both handle.
fn combine(first: &AllocationState, second: &AllocationState) -> (res: AllocationState)
    ensures
        res@ == combine_states(first@, second@),
{
    match (first, second) {
        (AllocationState::Undeclared(t1), AllocationState::Undeclared(t2)) => match t1 {
            Some(t) => AllocationState::Undeclared(Some(t.clone())),
            None => match t2 {
                Some(t) => AllocationState::Undeclared(Some(t.clone())),
                None => AllocationState::Undeclared(None),
            },
        },
        (AllocationState::Undeclared(_), AllocationState::Declared(t)) => AllocationState::Undeclared(Some(t.clone())),
        (AllocationState::Declared(t), AllocationState::Undeclared(_)) => AllocationState::Undeclared(Some(t.clone())),
        (AllocationState::Declared(t), AllocationState::Declared(_)) => AllocationState::Declared(t.clone()),
    }
}

impl Statement {
    /// The states of two lists of declarations made one after the other.
    pub fn merge_declarations_serial(declarations1: Declarations, declarations2: Declarations) -> (res: Declarations)
        requires
            decls_distinct(declarations1@),
            decls_distinct(declarations2@),
        ensures
            decls_distinct(res@),
            decls_view(res@) == merge_serial(decls_view(declarations1@), decls_view(declarations2@)),
    {
        let ghost a = decls_view(declarations1@);
        let ghost d2 = declarations2@;
        let mut out = declarations1;
        let mut i: usize = 0;
        proof {
            assert(d2.take(0) =~= Seq::<(Memory, AllocationState)>::empty());
            assert(merge_serial(a, decls_view(d2.take(0))) =~= a);
        }
        while i < declarations2.len()
            invariant
                i <= declarations2.len(),
                d2 == declarations2@,
                decls_distinct(d2),
                decls_distinct(out@),
                decls_view(out@) == merge_serial(a, decls_view(d2.take(i as int))),
            decreases declarations2.len() - i,
        {
            let ghost b = decls_view(d2.take(i as int));
            let ghost k = d2[i as int].0@;
            let ghost v = d2[i as int].1@;
            proof {
                lemma_decls_prefix_distinct(d2, i as int);
                lemma_decls_push(d2.take(i as int), d2[i as int]);
                lemma_dlookup_keys(d2.take(i as int), k);
            }
            let key = &declarations2[i].0;
            let state = &declarations2[i].1;
            match find_declaration(&out, key) {
                Some(j) => {
                    let replace = match (state, &out[j].1) {
                        (AllocationState::Declared(_), AllocationState::Undeclared(_)) => true,
                        _ => false,
                    };
                    proof {
                        lemma_dlookup_index(out@, j as int);
                        assert(!b.contains_key(k));
                        assert(decls_view(out@).contains_key(k));
                        assert(a.contains_key(k));
                        assert(dlookup(out@, k) == Some(out@[j as int].1@));
                        assert(decls_view(out@)[k] == out@[j as int].1@);
                        assert(merge_serial(a, b)[k] == a[k]);
                        assert(out@[j as int].1@ == a[k]);
                        assert(state@ == v);
                        assert(replace == (v is Declared && a[k] is Undeclared));
                    }
                    if replace {
                        let ghost before = out@;
                        let entry = (key.clone(), clone_state(state));
                        out.set(j, entry);
                        proof {
                            lemma_decls_set(before, j as int, entry);
                        }
                    }
                    proof {
                        assert(decls_view(out@) =~= merge_serial(a, b.insert(k, v)));
                    }
                },
                None => {
                    let ghost before = out@;
                    let entry = (key.clone(), clone_state(state));
                    out.push(entry);
                    proof {
                        lemma_dlookup_keys(before, k);
                        assert(!b.contains_key(k));
                        assert(dlookup(before, k) is None);
                        assert(!decls_view(before).contains_key(k));
                        assert(!merge_serial(a, b).contains_key(k));
                        assert(!a.contains_key(k));
                        lemma_decls_push(before, entry);
                        assert(decls_view(out@) =~= merge_serial(a, b.insert(k, v)));
                    }
                },
            }
            i = i + 1;
        }
        proof {
            assert(d2.take(declarations2.len() as int) =~= d2);
        }
        out
    }

    /// The states of the locations that two alternatives both handle.
    pub fn merge_declarations_parallel(declarations1: Declarations, declarations2: Declarations) -> (res: Declarations)
        requires
            decls_distinct(declarations1@),
            decls_distinct(declarations2@),
        ensures
            decls_distinct(res@),
            decls_view(res@) == merge_parallel(decls_view(declarations1@), decls_view(declarations2@)),
    {
        let ghost d1 = declarations1@;
        let ghost b = decls_view(declarations2@);
        let mut out: Declarations = Vec::new();
        let mut i: usize = 0;
        proof {
            assert(d1.take(0) =~= Seq::<(Memory, AllocationState)>::empty());
            assert(decl_keys(out@) =~= Seq::<Seq<char>>::empty());
            assert(decls_view(out@) =~= merge_parallel(decls_view(d1.take(0)), b));
        }
        while i < declarations1.len()
            invariant
                i <= declarations1.len(),
                d1 == declarations1@,
                b == decls_view(declarations2@),
                decls_distinct(d1),
                decls_distinct(declarations2@),
                decls_distinct(out@),
                forall|x: Seq<char>| #[trigger] decl_keys(out@).contains(x) ==> decl_keys(d1.take(i as int)).contains(x),
                decls_view(out@) == merge_parallel(decls_view(d1.take(i as int)), b),
            decreases declarations1.len() - i,
        {
            let ghost a = decls_view(d1.take(i as int));
            let ghost k = d1[i as int].0@;
            proof {
                lemma_decls_prefix_distinct(d1, i as int);
                lemma_decls_push(d1.take(i as int), d1[i as int]);
                lemma_dlookup_keys(declarations2@, k);
            }
            let key = &declarations1[i].0;
            let ghost before = out@;
            match find_declaration(&declarations2, key) {
                Some(j) => {
                    proof {
                        lemma_dlookup_index(declarations2@, j as int);
                    }
                    let entry = (key.clone(), combine(&declarations1[i].1, &declarations2[j].1));
                    out.push(entry);
                    proof {
                        lemma_decls_push(before, entry);
                        assert(decl_keys(out@) =~= decl_keys(before).push(k));
                        assert forall|x: Seq<char>| #[trigger] decl_keys(out@).contains(x) implies decl_keys(d1.take(i + 1)).contains(x) by {
                            assert(decl_keys(d1.take(i + 1)) =~= decl_keys(d1.take(i as int)).push(k));
                            if x != k {
                                let t = choose|t: int| 0 <= t < decl_keys(out@).len() && decl_keys(out@)[t] == x;
                                assert(decl_keys(before).contains(x)) by {
                                    assert(decl_keys(before)[t] == x);
                                }
                                let u = choose|u: int| 0 <= u < decl_keys(d1.take(i as int)).len() && decl_keys(d1.take(i as int))[u] == x;
                                assert(decl_keys(d1.take(i + 1))[u] == x);
                            } else {
                                assert(decl_keys(d1.take(i + 1))[i as int] == k);
                            }
                        }
                        assert(decls_view(out@) =~= merge_parallel(a.insert(k, d1[i as int].1@), b));
                    }
                },
                None => {
                    proof {
                        assert forall|x: Seq<char>| #[trigger] decl_keys(out@).contains(x) implies decl_keys(d1.take(i + 1)).contains(x) by {
                            assert(decl_keys(d1.take(i + 1)) =~= decl_keys(d1.take(i as int)).push(k));
                            let u = choose|u: int| 0 <= u < decl_keys(d1.take(i as int)).len() && decl_keys(d1.take(i as int))[u] == x;
                            assert(decl_keys(d1.take(i + 1))[u] == x);
                        }
                        assert(decls_view(out@) =~= merge_parallel(a.insert(k, d1[i as int].1@), b));
                    }
                },
            }
            i = i + 1;
        }
        proof {
            assert(d1.take(declarations1.len() as int) =~= d1);
        }
        out
    }
}

impl Statement {
    /// The states that a statement gives the locations it handles.
    pub fn get_declarations(&self) -> (res: Declarations)
        ensures
            decls_distinct(res@),
            decls_view(res@) == statement_decls(self@),
        decreases self@, 0nat,
    {
        match self {
            Statement::Await(_) | Statement::Allocation(_) => {
                let res: Declarations = Vec::new();
                proof {
                    assert(self@ is Await || self@ is Allocation);
                    assert(statement_decls(self@) == Map::<Seq<char>, StateModel>::empty());
                    assert(decl_keys(res@) =~= Seq::<Seq<char>>::empty());
                    assert(decls_view(res@) =~= Map::<Seq<char>, StateModel>::empty());
                }
                res
            },
            Statement::Assignment(Assignment { target, value }) => {
                let state = match value {
                    Expression::FnCall(FnCall { fn_type: FnType(args, r), .. }) => {
                        proof {
                            crate::machine::lemma_machine_fn_view(*args, *r);
                        }
                        AllocationState::Undeclared(Some((**r).clone()))
                    },
                    _ => AllocationState::Undeclared(None),
                };
                let entry = (target.clone(), state);
                proof {
                    lemma_decls_single(entry);
                }
                let mut res: Declarations = Vec::new();
                res.push(entry);
                proof {
                    assert(res@ =~= seq![entry]);
                }
                res
            },
            Statement::Declaration(Declaration { type_, memory }) => {
                let entry = (memory.clone(), AllocationState::Declared(type_.clone()));
                proof {
                    lemma_decls_single(entry);
                }
                let mut res: Declarations = Vec::new();
                res.push(entry);
                proof {
                    assert(res@ =~= seq![entry]);
                }
                res
            },
            Statement::IfStatement(if_statement) => {
                proof {
                    lemma_if_view(*if_statement);
                    assert(decreases_to!(self@ => self@->If_1));
                    assert(decreases_to!(self@ => self@->If_2));
                }
                let first = Self::declarations(&if_statement.branches.0);
                let second = Self::declarations(&if_statement.branches.1);
                Self::merge_declarations_serial(first, second)
            },
            Statement::MatchStatement(match_statement) => {
                proof {
                    lemma_match_statement_view(*match_statement);
                }
                let ghost bs = self@->Match_2;
                let mut declarations: Declarations = Vec::new();
                let mut j: usize = 0;
                proof {
                    assert(bs.take(0) =~= Seq::<(Option<Seq<char>>, Seq<StatementModel>)>::empty());
                    assert(decl_keys(declarations@) =~= Seq::<Seq<char>>::empty());
                    assert(decls_view(declarations@) =~= Map::<Seq<char>, StateModel>::empty());
                }
                while j < match_statement.branches.len()
                    invariant
                        j <= match_statement.branches.len(),
                        bs == match_statement.branches@.map_values(|b: MatchBranch| match_branch_view(b)),
                        bs == self@->Match_2,
                        self@ is Match,
                        decls_distinct(declarations@),
                        decls_view(declarations@) == branches_decls(bs.take(j as int)),
                    decreases match_statement.branches.len() - j,
                {
                    proof {
                        assert(bs.take(j + 1).drop_last() =~= bs.take(j as int));
                        assert(bs.take(j + 1).last() == bs[j as int]);
                        assert(bs[j as int] == match_branch_view(match_statement.branches@[j as int]));
                        assert(decreases_to!(self@ => self@->Match_2));
                        assert(decreases_to!(bs => bs[j as int]));
                        assert(decreases_to!(bs[j as int] => bs[j as int].1));
                    }
                    let branch_declarations = Self::declarations(&match_statement.branches[j].statements);
                    declarations = Self::merge_declarations_serial(declarations, branch_declarations);
                    j = j + 1;
                }
                proof {
                    assert(bs.take(match_statement.branches.len() as int) =~= bs);
                }
                declarations
            },
        }
    }

    /// The states that statements run one after the other give the locations they handle.
    pub fn declarations(statements: &Vec<Statement>) -> (res: Declarations)
        ensures
            decls_distinct(res@),
            decls_view(res@) == statements_decls(statements_view(statements@)),
        decreases statements_view(statements@), 1nat,
    {
        let ghost st = statements_view(statements@);
        let mut declarations: Declarations = Vec::new();
        let mut i: usize = 0;
        proof {
            assert(st.take(0) =~= Seq::<StatementModel>::empty());
            assert(decl_keys(declarations@) =~= Seq::<Seq<char>>::empty());
            assert(decls_view(declarations@) =~= Map::<Seq<char>, StateModel>::empty());
        }
        while i < statements.len()
            invariant
                i <= statements.len(),
                st == statements_view(statements@),
                decls_distinct(declarations@),
                decls_view(declarations@) == statements_decls(st.take(i as int)),
            decreases statements.len() - i,
        {
            proof {
                assert(st.take(i + 1).drop_last() =~= st.take(i as int));
                assert(st.take(i + 1).last() == st[i as int]);
                assert(st[i as int] == statements@[i as int]@);
                assert(decreases_to!(st => st[i as int]));
            }
            let statement_declarations = statements[i].get_declarations();
            declarations = Self::merge_declarations_serial(declarations, statement_declarations);
            i = i + 1;
        }
        proof {
            assert(st.take(statements.len() as int) =~= st);
        }
        declarations
    }

    /// A declaration for each declared location of a list, in the list's order.
    pub fn from_declarations(declarations: Declarations) -> (res: Vec<Statement>)
        ensures
            statements_view(res@) == declared_statements(declarations@),
    {
        let ghost d = declarations@;
        let mut out: Vec<Statement> = Vec::new();
        let mut i: usize = 0;
        proof {
            assert(d.take(0) =~= Seq::<(Memory, AllocationState)>::empty());
            assert(statements_view(out@) =~= Seq::<StatementModel>::empty());
        }
        while i < declarations.len()
            invariant
                i <= declarations.len(),
                d == declarations@,
                statements_view(out@) == declared_statements(d.take(i as int)),
            decreases declarations.len() - i,
        {
            proof {
                assert(d.take(i + 1).drop_last() =~= d.take(i as int));
                assert(d.take(i + 1).last() == d[i as int]);
            }
            let ghost before = out@;
            match &declarations[i].1 {
                AllocationState::Declared(type_) => {
                    out.push(Statement::Declaration(Declaration { memory: declarations[i].0.clone(), type_: type_.clone() }));
                    proof {
                        assert(statements_view(out@) =~= statements_view(before).push(out@.last()@));
                    }
                },
                AllocationState::Undeclared(_) => {},
            }
            i = i + 1;
        }
        proof {
            assert(d.take(declarations.len() as int) =~= d);
        }
        out
    }
}

/// Whether a location is among some locations.
fn contains_memory(memories: &Vec<Memory>, memory: &Memory) -> (res: bool)
    ensures
        res == crate::machine::memories_view(memories@).contains(memory@),
{
    let mut i: usize = 0;
    while i < memories.len()
        invariant
            i <= memories.len(),
            forall|t: int| 0 <= t < i ==> #[trigger] crate::machine::memories_view(memories@)[t] != memory@,
        decreases memories.len() - i,
    {
        if memories[i].0 == memory.0 {
            proof {
                assert(crate::machine::memories_view(memories@)[i as int] == memory@);
            }
            return true;
        }
        i = i + 1;
    }
    false
}

impl Statement {
    /// The statement without the declarations of the given locations, in its
    /// branches too; `None` where it is such a declaration itself.
    pub fn maybe_remove_declaration(self, declarations: &Vec<Memory>) -> (res: Option<Statement>)
        ensures
            match res {
                Some(s) => removed_statement(self@, crate::machine::memories_view(declarations@).to_set()) == Some(s@),
                None => removed_statement(self@, crate::machine::memories_view(declarations@).to_set()) is None,
            },
        decreases self@, 0nat,
    {
        let ghost ms = crate::machine::memories_view(declarations@).to_set();
        let ghost model = self@;
        match self {
            Statement::Declaration(declaration) => {
                if contains_memory(declarations, &declaration.memory) {
                    None
                } else {
                    Some(Statement::Declaration(declaration))
                }
            },
            Statement::IfStatement(IfStatement { condition, branches }) => {
                proof {
                    lemma_if_view(IfStatement { condition, branches });
                    assert(decreases_to!(model => model->If_1));
                    assert(decreases_to!(model => model->If_2));
                }
                let (first, second) = branches;
                let first = Self::remove_declarations(first, declarations);
                let second = Self::remove_declarations(second, declarations);
                let res = IfStatement { condition, branches: (first, second) };
                proof {
                    lemma_if_view(res);
                }
                Some(Statement::IfStatement(res))
            },
            Statement::MatchStatement(match_statement) => {
                proof {
                    lemma_match_statement_view(match_statement);
                }
                let ghost bs = model->Match_2;
                let crate::machine::MatchStatement { expression, branches, auxiliary_memory } = match_statement;
                let ghost original = branches@;
                proof {
                    assert(original.len() == branches.len());
                }
                let mut rest = branches;
                let mut out: Vec<MatchBranch> = Vec::new();
                let mut j: usize = 0;
                proof {
                    assert(rest@ =~= original.skip(0));
                    assert(bs.take(0) =~= Seq::<(Option<Seq<char>>, Seq<StatementModel>)>::empty());
                    assert(out@.map_values(|b: MatchBranch| match_branch_view(b)) =~= removed_branches(bs.take(0), ms));
                }
                while rest.len() > 0
                    invariant
                        j <= original.len(),
                        original.len() <= usize::MAX,
                        model == self@,
                        rest@ == original.skip(j as int),
                        bs == original.map_values(|b: MatchBranch| match_branch_view(b)),
                        model is Match,
                        bs == model->Match_2,
                        ms == crate::machine::memories_view(declarations@).to_set(),
                        out@.map_values(|b: MatchBranch| match_branch_view(b)) == removed_branches(bs.take(j as int), ms),
                    decreases rest.len(),
                {
                    let ghost r0 = rest@;
                    let branch = rest.remove(0);
                    proof {
                        assert(branch == original[j as int]);
                        assert(rest@ =~= original.skip(j + 1));
                        assert(bs[j as int] == match_branch_view(branch));
                        assert(decreases_to!(model => model->Match_2));
                        assert(decreases_to!(bs => bs[j as int]));
                        assert(decreases_to!(bs[j as int] => bs[j as int].1));
                        assert(bs[j as int].1 == crate::machine::statements_view(branch.statements@));
                    }
                    let MatchBranch { target, statements } = branch;
                    let statements = Self::remove_declarations(statements, declarations);
                    let ghost ob = out@;
                    out.push(MatchBranch { target, statements });
                    proof {
                        assert(bs.take(j + 1).drop_last() =~= bs.take(j as int));
                        assert(bs.take(j + 1).last() == bs[j as int]);
                        assert(out@.map_values(|b: MatchBranch| match_branch_view(b)) =~= ob.map_values(|b: MatchBranch| match_branch_view(b)).push(
                            match_branch_view(out@.last()),
                        ));
                    }
                    j = j + 1;
                }
                proof {
                    assert(j == original.len()) by {
                        assert(original.skip(j as int).len() == 0);
                    }
                    assert(bs.take(j as int) =~= bs);
                }
                let res = crate::machine::MatchStatement { expression, branches: out, auxiliary_memory };
                proof {
                    lemma_match_statement_view(res);
                }
                Some(Statement::MatchStatement(res))
            },
            other => Some(other),
        }
    }

    /// The statements without the declarations of the given locations, in
    /// their branches too.
    pub fn remove_declarations(statements: Vec<Statement>, declarations: &Vec<Memory>) -> (res: Vec<Statement>)
        ensures
            crate::machine::statements_view(res@) == removed_statements(
                crate::machine::statements_view(statements@),
                crate::machine::memories_view(declarations@).to_set(),
            ),
        decreases crate::machine::statements_view(statements@), 1nat,
    {
        let ghost ms = crate::machine::memories_view(declarations@).to_set();
        let ghost original = statements@;
        let ghost st = crate::machine::statements_view(original);
        proof {
            assert(original.len() == statements.len());
        }
        let mut rest = statements;
        let mut out: Vec<Statement> = Vec::new();
        let mut i: usize = 0;
        proof {
            assert(rest@ =~= original.skip(0));
            assert(st.take(0) =~= Seq::<StatementModel>::empty());
            assert(crate::machine::statements_view(out@) =~= removed_statements(st.take(0), ms));
        }
        while rest.len() > 0
            invariant
                i <= original.len(),
                original.len() <= usize::MAX,
                original == statements@,
                rest@ == original.skip(i as int),
                st == crate::machine::statements_view(original),
                ms == crate::machine::memories_view(declarations@).to_set(),
                crate::machine::statements_view(out@) == removed_statements(st.take(i as int), ms),
            decreases rest.len(),
        {
            let statement = rest.remove(0);
            proof {
                assert(statement == original[i as int]);
                assert(rest@ =~= original.skip(i + 1));
                assert(st[i as int] == statement@);
                assert(decreases_to!(st => st[i as int]));
                assert(st.take(i + 1).drop_last() =~= st.take(i as int));
                assert(st.take(i + 1).last() == st[i as int]);
            }
            let ghost ob = out@;
            match statement.maybe_remove_declaration(declarations) {
                Some(kept) => {
                    out.push(kept);
                    proof {
                        assert(crate::machine::statements_view(out@) =~= crate::machine::statements_view(ob).push(out@.last()@));
                    }
                },
                None => {},
            }
            i = i + 1;
        }
        proof {
            assert(i == original.len()) by {
                assert(original.skip(i as int).len() == 0);
            }
            assert(st.take(i as int) =~= st);
        }
        out
    }
}

} // verus!
