//! Vectors that count the kinds of nodes of generated code, and the code
//! size that each kind costs.

use vstd::prelude::*;
use crate::atoms::Id;
use crate::text::{append_joined, decimal, join, string_less, strings_view, text_less, usize_to_text};

verus! {

/// A count of each kind of node, with a count for each built-in operator.
#[derive(Debug)]
pub struct CodeVector {
    pub builtin_bool: usize,
    pub builtin_int: usize,
    pub builtin_fn: usize,
    pub memory_access: usize,
    pub tuple_expression: usize,
    pub element_access: usize,
    pub value_expression: usize,
    pub fn_call: usize,
    pub ctor_call: usize,
    pub lambda: usize,
    pub assignment: usize,
    pub if_statement: usize,
    pub match_statement: usize,
    pub operators: Vec<(Id, usize)>,
}

/// The mathematical model of a code vector: a count of each kind of node and a
/// map from the operators it counts to their counts.
pub struct CodeVectorModel {
    pub builtin_bool: nat,
    pub builtin_int: nat,
    pub builtin_fn: nat,
    pub memory_access: nat,
    pub tuple_expression: nat,
    pub element_access: nat,
    pub value_expression: nat,
    pub fn_call: nat,
    pub ctor_call: nat,
    pub lambda: nat,
    pub assignment: nat,
    pub if_statement: nat,
    pub match_statement: nat,
    pub operators: Map<Seq<char>, nat>,
}

/// The count recorded last for an operator in an association list.
pub open spec fn op_get(ops: Seq<(Id, usize)>, k: Seq<char>) -> Option<usize>
    decreases ops.len(),
{
    if ops.len() == 0 {
        None
    } else if ops.last().0@ == k {
        Some(ops.last().1)
    } else {
        op_get(ops.drop_last(), k)
    }
}

/// The count of an operator, zero where it is not counted.
pub open spec fn op_count(ops: Seq<(Id, usize)>, k: Seq<char>) -> nat {
    match op_get(ops, k) {
        Some(v) => v as nat,
        None => 0,
    }
}

/// The operators of an association list as a map.
pub open spec fn ops_view(ops: Seq<(Id, usize)>) -> Map<Seq<char>, nat> {
    Map::new(|k: Seq<char>| op_get(ops, k) is Some, |k: Seq<char>| op_count(ops, k))
}

/// The names of the operators of an association list, in order.
pub open spec fn op_keys(ops: Seq<(Id, usize)>) -> Seq<Seq<char>> {
    ops.map_values(|p: (Id, usize)| p.0@)
}

impl View for CodeVector {
    type V = CodeVectorModel;

    open spec fn view(&self) -> CodeVectorModel {
        CodeVectorModel {
            builtin_bool: self.builtin_bool as nat,
            builtin_int: self.builtin_int as nat,
            builtin_fn: self.builtin_fn as nat,
            memory_access: self.memory_access as nat,
            tuple_expression: self.tuple_expression as nat,
            element_access: self.element_access as nat,
            value_expression: self.value_expression as nat,
            fn_call: self.fn_call as nat,
            ctor_call: self.ctor_call as nat,
            lambda: self.lambda as nat,
            assignment: self.assignment as nat,
            if_statement: self.if_statement as nat,
            match_statement: self.match_statement as nat,
            operators: ops_view(self.operators@),
        }
    }
}

/// The count of an operator in a map, zero where it is not counted.
pub open spec fn map_count(m: Map<Seq<char>, nat>, k: Seq<char>) -> nat {
    if m.contains_key(k) { m[k] } else { 0 }
}

/// The sum of two vectors: counts add, and an operator is counted where either counts it.
pub open spec fn model_add(a: CodeVectorModel, b: CodeVectorModel) -> CodeVectorModel {
    CodeVectorModel {
        builtin_bool: a.builtin_bool + b.builtin_bool,
        builtin_int: a.builtin_int + b.builtin_int,
        builtin_fn: a.builtin_fn + b.builtin_fn,
        memory_access: a.memory_access + b.memory_access,
        tuple_expression: a.tuple_expression + b.tuple_expression,
        element_access: a.element_access + b.element_access,
        value_expression: a.value_expression + b.value_expression,
        fn_call: a.fn_call + b.fn_call,
        ctor_call: a.ctor_call + b.ctor_call,
        lambda: a.lambda + b.lambda,
        assignment: a.assignment + b.assignment,
        if_statement: a.if_statement + b.if_statement,
        match_statement: a.match_statement + b.match_statement,
        operators: Map::new(
            |k: Seq<char>| a.operators.contains_key(k) || b.operators.contains_key(k),
            |k: Seq<char>| map_count(a.operators, k) + map_count(b.operators, k),
        ),
    }
}

/// A vector with every count multiplied by a factor.
pub open spec fn model_scale(a: CodeVectorModel, n: nat) -> CodeVectorModel {
    CodeVectorModel {
        builtin_bool: a.builtin_bool * n,
        builtin_int: a.builtin_int * n,
        builtin_fn: a.builtin_fn * n,
        memory_access: a.memory_access * n,
        tuple_expression: a.tuple_expression * n,
        element_access: a.element_access * n,
        value_expression: a.value_expression * n,
        fn_call: a.fn_call * n,
        ctor_call: a.ctor_call * n,
        lambda: a.lambda * n,
        assignment: a.assignment * n,
        if_statement: a.if_statement * n,
        match_statement: a.match_statement * n,
        operators: Map::new(|k: Seq<char>| a.operators.contains_key(k), |k: Seq<char>| a.operators[k] * n),
    }
}

/// The vector that counts nothing.
pub open spec fn model_zero() -> CodeVectorModel {
    CodeVectorModel {
        builtin_bool: 0,
        builtin_int: 0,
        builtin_fn: 0,
        memory_access: 0,
        tuple_expression: 0,
        element_access: 0,
        value_expression: 0,
        fn_call: 0,
        ctor_call: 0,
        lambda: 0,
        assignment: 0,
        if_statement: 0,
        match_statement: 0,
        operators: Map::empty(),
    }
}

/// The dot product of the counts of the kinds of nodes.
pub open spec fn fields_dot(a: CodeVectorModel, b: CodeVectorModel) -> nat {
    a.builtin_bool * b.builtin_bool + a.builtin_int * b.builtin_int + a.builtin_fn * b.builtin_fn + a.memory_access * b.memory_access + a.tuple_expression * b.tuple_expression + a.element_access * b.element_access + a.value_expression * b.value_expression + a.fn_call * b.fn_call + a.ctor_call * b.ctor_call + a.lambda * b.lambda + a.assignment * b.assignment + a.if_statement * b.if_statement + a.match_statement * b.match_statement
}

/// The dot product of the operator counts of an association list with those of a map.
pub open spec fn ops_dot(ops: Seq<(Id, usize)>, m: Map<Seq<char>, nat>) -> nat
    decreases ops.len(),
{
    if ops.len() == 0 {
        0
    } else {
        ops_dot(ops.drop_last(), m) + (ops.last().1 as nat) * map_count(m, ops.last().0@)
    }
}

/// Whether no operator is listed twice.
pub open spec fn ops_distinct(ops: Seq<(Id, usize)>) -> bool {
    op_keys(ops).no_duplicates()
}

/// Whether every count of a vector fits in a machine word.
pub open spec fn model_fits(a: CodeVectorModel) -> bool {
    &&& a.builtin_bool <= usize::MAX
    &&& a.builtin_int <= usize::MAX
    &&& a.builtin_fn <= usize::MAX
    &&& a.memory_access <= usize::MAX
    &&& a.tuple_expression <= usize::MAX
    &&& a.element_access <= usize::MAX
    &&& a.value_expression <= usize::MAX
    &&& a.fn_call <= usize::MAX
    &&& a.ctor_call <= usize::MAX
    &&& a.lambda <= usize::MAX
    &&& a.assignment <= usize::MAX
    &&& a.if_statement <= usize::MAX
    &&& a.match_statement <= usize::MAX
    &&& forall|k: Seq<char>| a.operators.contains_key(k) ==> #[trigger] a.operators[k] <= usize::MAX
}

/// The sum of a sequence of vectors.
pub open spec fn model_sum(vs: Seq<CodeVectorModel>) -> CodeVectorModel
    decreases vs.len(),
{
    if vs.len() == 0 {
        model_zero()
    } else {
        model_add(model_sum(vs.drop_last()), vs.last())
    }
}

/// The count of an operator in an association list, or `None`.
pub fn find_op(ops: &Vec<(Id, usize)>, k: &Id) -> (res: Option<usize>)
    ensures
        res == op_get(ops@, k@),
{
    let mut i: usize = ops.len();
    proof {
        assert(ops@.take(i as int) =~= ops@);
    }
    while i > 0
        invariant
            i <= ops.len(),
            op_get(ops@, k@) == op_get(ops@.take(i as int), k@),
        decreases i,
    {
        proof {
            assert(ops@.take(i as int).drop_last() =~= ops@.take(i - 1));
        }
        if ops[i - 1].0 == *k {
            return Some(ops[i - 1].1);
        }
        i = i - 1;
    }
    None
}

impl CodeVector {
    /// The vector that counts nothing.
    pub fn new() -> (res: Self)
        ensures
            res@ == model_zero(),
            res.operators@.len() == 0,
            ops_distinct(res.operators@),
    {
        let res = CodeVector {
            builtin_bool: 0,
            builtin_int: 0,
            builtin_fn: 0,
            memory_access: 0,
            tuple_expression: 0,
            element_access: 0,
            value_expression: 0,
            fn_call: 0,
            ctor_call: 0,
            lambda: 0,
            assignment: 0,
            if_statement: 0,
            match_statement: 0,
            operators: Vec::new(),
        };
        proof {
            assert(res@.operators =~= Map::<Seq<char>, nat>::empty());
        }
        res
    }

    /// The vector that counts one use of an operator.
    pub fn operator(operator: Id) -> (res: Self)
        ensures
            res@ == (CodeVectorModel { operators: map![operator@ => 1nat], ..model_zero() }),
            ops_distinct(res.operators@),
    {
        let ghost k = operator@;
        let mut instance = Self::new();
        let ghost empty = instance.operators@;
        instance.operators.push((operator, 1));
        proof {
            assert forall|q: Seq<char>| #[trigger] op_get(instance.operators@, q) == (if q == k { Some(1usize) } else { None }) by {
                lemma_op_get_push(empty, instance.operators@.last(), q);
            }
            assert(instance@.operators =~= map![k => 1nat]);
            assert(op_keys(instance.operators@) =~= seq![k]);
        }
        instance
    }


    /// The vector that counts one node of this kind.
    pub fn builtin_bool() -> (res: Self)
        ensures
            res@ == (CodeVectorModel { builtin_bool: 1, ..model_zero() }),
            ops_distinct(res.operators@),
    {
        let mut instance = Self::new();
        instance.builtin_bool = instance.builtin_bool + 1;
        instance
    }

    /// The vector that counts one node of this kind.
    pub fn builtin_int() -> (res: Self)
        ensures
            res@ == (CodeVectorModel { builtin_int: 1, ..model_zero() }),
            ops_distinct(res.operators@),
    {
        let mut instance = Self::new();
        instance.builtin_int = instance.builtin_int + 1;
        instance
    }

    /// The vector that counts one node of this kind.
    pub fn builtin_fn() -> (res: Self)
        ensures
            res@ == (CodeVectorModel { builtin_fn: 1, ..model_zero() }),
            ops_distinct(res.operators@),
    {
        let mut instance = Self::new();
        instance.builtin_fn = instance.builtin_fn + 1;
        instance
    }

    /// The vector that counts one node of this kind.
    pub fn memory_access() -> (res: Self)
        ensures
            res@ == (CodeVectorModel { memory_access: 1, ..model_zero() }),
            ops_distinct(res.operators@),
    {
        let mut instance = Self::new();
        instance.memory_access = instance.memory_access + 1;
        instance
    }

    /// The vector that counts one node of this kind.
    pub fn tuple_expression() -> (res: Self)
        ensures
            res@ == (CodeVectorModel { tuple_expression: 1, ..model_zero() }),
            ops_distinct(res.operators@),
    {
        let mut instance = Self::new();
        instance.tuple_expression = instance.tuple_expression + 1;
        instance
    }

    /// The vector that counts one node of this kind.
    pub fn element_access() -> (res: Self)
        ensures
            res@ == (CodeVectorModel { element_access: 1, ..model_zero() }),
            ops_distinct(res.operators@),
    {
        let mut instance = Self::new();
        instance.element_access = instance.element_access + 1;
        instance
    }

    /// The vector that counts one node of this kind.
    pub fn value_expression() -> (res: Self)
        ensures
            res@ == (CodeVectorModel { value_expression: 1, ..model_zero() }),
            ops_distinct(res.operators@),
    {
        let mut instance = Self::new();
        instance.value_expression = instance.value_expression + 1;
        instance
    }

    /// The vector that counts one node of this kind.
    pub fn fn_call() -> (res: Self)
        ensures
            res@ == (CodeVectorModel { fn_call: 1, ..model_zero() }),
            ops_distinct(res.operators@),
    {
        let mut instance = Self::new();
        instance.fn_call = instance.fn_call + 1;
        instance
    }

    /// The vector that counts one node of this kind.
    pub fn ctor_call() -> (res: Self)
        ensures
            res@ == (CodeVectorModel { ctor_call: 1, ..model_zero() }),
            ops_distinct(res.operators@),
    {
        let mut instance = Self::new();
        instance.ctor_call = instance.ctor_call + 1;
        instance
    }

    /// The vector that counts one node of this kind.
    pub fn lambda() -> (res: Self)
        ensures
            res@ == (CodeVectorModel { lambda: 1, ..model_zero() }),
            ops_distinct(res.operators@),
    {
        let mut instance = Self::new();
        instance.lambda = instance.lambda + 1;
        instance
    }

    /// The vector that counts one node of this kind.
    pub fn assignment() -> (res: Self)
        ensures
            res@ == (CodeVectorModel { assignment: 1, ..model_zero() }),
            ops_distinct(res.operators@),
    {
        let mut instance = Self::new();
        instance.assignment = instance.assignment + 1;
        instance
    }

    /// The vector that counts one node of this kind.
    pub fn if_statement() -> (res: Self)
        ensures
            res@ == (CodeVectorModel { if_statement: 1, ..model_zero() }),
            ops_distinct(res.operators@),
    {
        let mut instance = Self::new();
        instance.if_statement = instance.if_statement + 1;
        instance
    }

    /// The vector that counts one node of this kind.
    pub fn match_statement() -> (res: Self)
        ensures
            res@ == (CodeVectorModel { match_statement: 1, ..model_zero() }),
            ops_distinct(res.operators@),
    {
        let mut instance = Self::new();
        instance.match_statement = instance.match_statement + 1;
        instance
    }

    /// A copy of this vector.
    pub fn copy(&self) -> (res: Self)
        ensures
            res@ == self@,
            op_keys(res.operators@) == op_keys(self.operators@),
    {
        let mut ops: Vec<(Id, usize)> = Vec::new();
        let mut i: usize = 0;
        while i < self.operators.len()
            invariant
                i <= self.operators.len(),
                ops@.len() == i,
                forall|j: int| 0 <= j < i ==> (#[trigger] ops@[j]).0@ == self.operators@[j].0@
                    && ops@[j].1 == self.operators@[j].1,
            decreases self.operators.len() - i,
        {
            ops.push((self.operators[i].0.clone(), self.operators[i].1));
            i = i + 1;
        }
        let res = CodeVector {
            builtin_bool: self.builtin_bool,
            builtin_int: self.builtin_int,
            builtin_fn: self.builtin_fn,
            memory_access: self.memory_access,
            tuple_expression: self.tuple_expression,
            element_access: self.element_access,
            value_expression: self.value_expression,
            fn_call: self.fn_call,
            ctor_call: self.ctor_call,
            lambda: self.lambda,
            assignment: self.assignment,
            if_statement: self.if_statement,
            match_statement: self.match_statement,
            operators: ops,
        };
        proof {
            assert forall|k: Seq<char>| op_get(res.operators@, k) == op_get(self.operators@, k) by {
                lemma_op_get_same_keys(res.operators@, self.operators@, k);
            }
            assert(res@.operators =~= self@.operators);
            assert(op_keys(res.operators@) =~= op_keys(self.operators@));
        }
        res
    }

    /// The sum of two vectors.
    pub fn add(self, other: Self) -> (res: Self)
        requires
            ops_distinct(self.operators@),
            ops_distinct(other.operators@),
            model_fits(model_add(self@, other@)),
        ensures
            res@ == model_add(self@, other@),
            ops_distinct(res.operators@),
    {
        let mut ops: Vec<(Id, usize)> = Vec::new();
        let mut i: usize = 0;
        while i < self.operators.len()
            invariant
                i <= self.operators.len(),
                ops_distinct(self.operators@),
                model_fits(model_add(self@, other@)),
                ops_distinct(ops@),
                forall|k: Seq<char>| (#[trigger] op_get(ops@, k) is Some) == (op_get(self.operators@.take(i as int), k) is Some),
                forall|k: Seq<char>| #[trigger] op_get(ops@, k) is Some ==> op_get(ops@, k)->0
                    == op_get(self.operators@.take(i as int), k)->0 + op_count(other.operators@, k),
            decreases self.operators.len() - i,
        {
            let k = &self.operators[i].0;
            let v = self.operators[i].1;
            let w = match find_op(&other.operators, k) {
                Some(w) => w,
                None => 0,
            };
            proof {
                assert(self.operators@.take(i + 1).drop_last() =~= self.operators@.take(i as int));
                lemma_op_get_distinct(self.operators@, i as int);
                assert(self@.operators.contains_key(k@));
                assert(model_add(self@, other@).operators[k@] <= usize::MAX);
                lemma_op_get_contains(ops@, k@);
                lemma_op_get_contains(self.operators@.take(i as int), k@);
                assert(op_keys(self.operators@.take(i as int)) =~= op_keys(self.operators@).take(i as int));
                if op_keys(self.operators@.take(i as int)).contains(k@) {
                    let t = choose|t: int| 0 <= t < i && op_keys(self.operators@.take(i as int))[t] == k@;
                    assert(op_keys(self.operators@)[t] == op_keys(self.operators@)[i as int]);
                }
                lemma_push_distinct(op_keys(ops@), k@);
            }
            let ghost before = ops@;
            ops.push((k.clone(), v + w));
            proof {
                assert(op_keys(ops@) =~= op_keys(before).push(k@));
                assert(self.operators@.take(i + 1) =~= self.operators@.take(i as int).push(self.operators@[i as int]));
                assert forall|q: Seq<char>| #[trigger] op_get(ops@, q) == (if q == k@ { Some((v + w) as usize) } else { op_get(before, q) }) by {
                    lemma_op_get_push(before, ops@.last(), q);
                }
                assert forall|q: Seq<char>| #[trigger] op_get(self.operators@.take(i + 1), q)
                    == (if q == k@ { Some(v) } else { op_get(self.operators@.take(i as int), q) }) by {
                    lemma_op_get_push(self.operators@.take(i as int), self.operators@[i as int], q);
                }
            }
            i = i + 1;
        }
        proof {
            assert(self.operators@.take(self.operators.len() as int) =~= self.operators@);
        }
        let mut j: usize = 0;
        while j < other.operators.len()
            invariant
                j <= other.operators.len(),
                ops_distinct(other.operators@),
                ops_distinct(ops@),
                forall|k: Seq<char>| (#[trigger] op_get(ops@, k) is Some)
                    == (op_get(self.operators@, k) is Some || op_get(other.operators@.take(j as int), k) is Some),
                forall|k: Seq<char>| #[trigger] op_get(ops@, k) is Some ==> op_get(ops@, k)->0 == (
                    if op_get(self.operators@, k) is Some {
                        op_get(self.operators@, k)->0 + op_count(other.operators@, k)
                    } else {
                        op_get(other.operators@.take(j as int), k)->0 as int
                    }),
            decreases other.operators.len() - j,
        {
            let k = &other.operators[j].0;
            proof {
                assert(other.operators@.take(j + 1).drop_last() =~= other.operators@.take(j as int));
            }
            if find_op(&self.operators, k).is_none() {
                proof {
                    lemma_op_get_contains(ops@, k@);
                    lemma_op_get_contains(other.operators@.take(j as int), k@);
                    assert(op_keys(other.operators@.take(j as int)) =~= op_keys(other.operators@).take(j as int));
                    if op_keys(other.operators@.take(j as int)).contains(k@) {
                        let t = choose|t: int| 0 <= t < j && op_keys(other.operators@.take(j as int))[t] == k@;
                        assert(op_keys(other.operators@)[t] == op_keys(other.operators@)[j as int]);
                    }
                    lemma_push_distinct(op_keys(ops@), k@);
                }
                let ghost before = ops@;
                ops.push((k.clone(), other.operators[j].1));
                proof {
                    assert(op_keys(ops@) =~= op_keys(before).push(k@));
                    assert forall|q: Seq<char>| #[trigger] op_get(ops@, q)
                        == (if q == k@ { Some(other.operators@[j as int].1) } else { op_get(before, q) }) by {
                        lemma_op_get_push(before, ops@.last(), q);
                    }
                }
            }
            proof {
                assert(other.operators@.take(j + 1) =~= other.operators@.take(j as int).push(other.operators@[j as int]));
                assert forall|q: Seq<char>| #[trigger] op_get(other.operators@.take(j + 1), q)
                    == (if q == k@ { Some(other.operators@[j as int].1) } else { op_get(other.operators@.take(j as int), q) }) by {
                    lemma_op_get_push(other.operators@.take(j as int), other.operators@[j as int], q);
                }
            }
            j = j + 1;
        }
        proof {
            assert(other.operators@.take(other.operators.len() as int) =~= other.operators@);
        }
        let res = CodeVector {
            builtin_bool: self.builtin_bool + other.builtin_bool,
            builtin_int: self.builtin_int + other.builtin_int,
            builtin_fn: self.builtin_fn + other.builtin_fn,
            memory_access: self.memory_access + other.memory_access,
            tuple_expression: self.tuple_expression + other.tuple_expression,
            element_access: self.element_access + other.element_access,
            value_expression: self.value_expression + other.value_expression,
            fn_call: self.fn_call + other.fn_call,
            ctor_call: self.ctor_call + other.ctor_call,
            lambda: self.lambda + other.lambda,
            assignment: self.assignment + other.assignment,
            if_statement: self.if_statement + other.if_statement,
            match_statement: self.match_statement + other.match_statement,
            operators: ops,
        };
        proof {
            assert(res@.operators =~= model_add(self@, other@).operators);
        }
        res
    }
}

/// The count of an operator after an entry is added to the end of a list.
proof fn lemma_op_get_push(ops: Seq<(Id, usize)>, e: (Id, usize), k: Seq<char>)
    ensures
        op_get(ops.push(e), k) == (if e.0@ == k { Some(e.1) } else { op_get(ops, k) }),
{
    assert(ops.push(e).drop_last() =~= ops);
}

/// An operator has a count exactly where the list names it.
pub proof fn lemma_op_get_contains(ops: Seq<(Id, usize)>, k: Seq<char>)
    ensures
        (op_get(ops, k) is Some) == op_keys(ops).contains(k),
    decreases ops.len(),
{
    if ops.len() > 0 {
        lemma_op_get_contains(ops.drop_last(), k);
        assert(op_keys(ops.drop_last()) =~= op_keys(ops).drop_last());
        if op_keys(ops).contains(k) && ops.last().0@ != k {
            let t = choose|t: int| 0 <= t < ops.len() && op_keys(ops)[t] == k;
            assert(op_keys(ops.drop_last())[t] == k);
        }
        if ops.last().0@ == k {
            assert(op_keys(ops)[ops.len() - 1] == k);
        }
        if op_keys(ops.drop_last()).contains(k) {
            let t = choose|t: int| 0 <= t < ops.len() - 1 && op_keys(ops.drop_last())[t] == k;
            assert(op_keys(ops)[t] == k);
        }
    }
}

/// In a list that names each operator once, each entry gives its operator's count.
pub proof fn lemma_op_get_distinct(ops: Seq<(Id, usize)>, i: int)
    requires
        ops_distinct(ops),
        0 <= i < ops.len(),
    ensures
        op_get(ops, ops[i].0@) == Some(ops[i].1),
    decreases ops.len(),
{
    if i < ops.len() - 1 {
        assert(op_keys(ops)[i] != op_keys(ops)[ops.len() - 1]);
        assert(ops_distinct(ops.drop_last())) by {
            assert(op_keys(ops.drop_last()) =~= op_keys(ops).drop_last());
        }
        lemma_op_get_distinct(ops.drop_last(), i);
    }
}

/// Adding an absent name keeps the names distinct.
proof fn lemma_push_distinct(s: Seq<Seq<char>>, x: Seq<char>)
    requires
        s.no_duplicates(),
        !s.contains(x),
    ensures
        s.push(x).no_duplicates(),
{
    assert forall|i: int, j: int| 0 <= i < s.len() + 1 && 0 <= j < s.len() + 1 && i != j implies s.push(x)[i] != s.push(x)[j] by {
        if i == s.len() {
            assert(s[j] == s.push(x)[j]);
        } else if j == s.len() {
            assert(s[i] == s.push(x)[i]);
        }
    }
}

impl CodeVector {
    /// This vector with every count multiplied by a factor.
    pub fn scale(self, other: usize) -> (res: Self)
        requires
            ops_distinct(self.operators@),
            model_fits(model_scale(self@, other as nat)),
        ensures
            res@ == model_scale(self@, other as nat),
            ops_distinct(res.operators@),
    {
        let mut ops: Vec<(Id, usize)> = Vec::new();
        let mut i: usize = 0;
        while i < self.operators.len()
            invariant
                i <= self.operators.len(),
                ops_distinct(self.operators@),
                model_fits(model_scale(self@, other as nat)),
                ops@.len() == i,
                forall|j: int| 0 <= j < i ==> (#[trigger] ops@[j]).0@ == self.operators@[j].0@
                    && ops@[j].1 == self.operators@[j].1 * other,
            decreases self.operators.len() - i,
        {
            proof {
                lemma_op_get_distinct(self.operators@, i as int);
                assert(self@.operators.contains_key(self.operators@[i as int].0@));
                assert(model_scale(self@, other as nat).operators[self.operators@[i as int].0@] <= usize::MAX);
            }
            ops.push((self.operators[i].0.clone(), self.operators[i].1 * other));
            i = i + 1;
        }
        proof {
            assert(op_keys(ops@) =~= op_keys(self.operators@));
            assert forall|k: Seq<char>| #[trigger] op_get(ops@, k) == match op_get(self.operators@, k) {
                Some(v) => Some((v * other) as usize),
                None => None,
            } by {
                lemma_op_get_scaled(ops@, self.operators@, other, k);
            }
        }
        let res = CodeVector {
            builtin_bool: self.builtin_bool * other,
            builtin_int: self.builtin_int * other,
            builtin_fn: self.builtin_fn * other,
            memory_access: self.memory_access * other,
            tuple_expression: self.tuple_expression * other,
            element_access: self.element_access * other,
            value_expression: self.value_expression * other,
            fn_call: self.fn_call * other,
            ctor_call: self.ctor_call * other,
            lambda: self.lambda * other,
            assignment: self.assignment * other,
            if_statement: self.if_statement * other,
            match_statement: self.match_statement * other,
            operators: ops,
        };
        proof {
            assert(res@.operators =~= model_scale(self@, other as nat).operators);
        }
        res
    }

    /// The dot product of two vectors: the products of the counts of each kind
    /// of node, and of each operator that this vector counts, summed.
    pub fn dot(self, other: Self) -> (res: usize)
        requires
            ops_distinct(self.operators@),
            fields_dot(self@, other@) + ops_dot(self.operators@, other@.operators) <= usize::MAX,
        ensures
            res == fields_dot(self@, other@) + ops_dot(self.operators@, other@.operators),
    {
        let ghost total = fields_dot(self@, other@) + ops_dot(self.operators@, other@.operators);
        let mut acc: usize = 0;
        acc = acc + self.builtin_bool * other.builtin_bool;
        acc = acc + self.builtin_int * other.builtin_int;
        acc = acc + self.builtin_fn * other.builtin_fn;
        acc = acc + self.memory_access * other.memory_access;
        acc = acc + self.tuple_expression * other.tuple_expression;
        acc = acc + self.element_access * other.element_access;
        acc = acc + self.value_expression * other.value_expression;
        acc = acc + self.fn_call * other.fn_call;
        acc = acc + self.ctor_call * other.ctor_call;
        acc = acc + self.lambda * other.lambda;
        acc = acc + self.assignment * other.assignment;
        acc = acc + self.if_statement * other.if_statement;
        acc = acc + self.match_statement * other.match_statement;
        let mut i: usize = 0;
        while i < self.operators.len()
            invariant
                i <= self.operators.len(),
                total == fields_dot(self@, other@) + ops_dot(self.operators@, other@.operators),
                total <= usize::MAX,
                acc == fields_dot(self@, other@) + ops_dot(self.operators@.take(i as int), other@.operators),
            decreases self.operators.len() - i,
        {
            proof {
                assert(self.operators@.take(i + 1).drop_last() =~= self.operators@.take(i as int));
                lemma_ops_dot_prefix(self.operators@, i + 1, other@.operators);
            }
            let c = match find_op(&other.operators, &self.operators[i].0) {
                Some(c) => c,
                None => 0,
            };
            acc = acc + self.operators[i].1 * c;
            i = i + 1;
        }
        proof {
            assert(self.operators@.take(self.operators.len() as int) =~= self.operators@);
        }
        acc
    }

    /// Whether two vectors have the same counts.
    pub fn same(&self, other: &Self) -> (res: bool)
        ensures
            res == (self@ == other@),
    {
        if self.builtin_bool != other.builtin_bool || self.builtin_int != other.builtin_int || self.builtin_fn != other.builtin_fn || self.memory_access != other.memory_access || self.tuple_expression != other.tuple_expression || self.element_access != other.element_access || self.value_expression != other.value_expression || self.fn_call != other.fn_call || self.ctor_call != other.ctor_call || self.lambda != other.lambda || self.assignment != other.assignment || self.if_statement != other.if_statement || self.match_statement != other.match_statement {
            return false;
        }
        let mut i: usize = 0;
        while i < self.operators.len()
            invariant
                i <= self.operators.len(),
                forall|j: int| 0 <= j < i ==> op_get(self.operators@, (#[trigger] self.operators@[j]).0@)
                    == op_get(other.operators@, self.operators@[j].0@),
            decreases self.operators.len() - i,
        {
            if find_op(&self.operators, &self.operators[i].0) != find_op(&other.operators, &self.operators[i].0) {
                proof {
                    lemma_op_get_views(self.operators@, other.operators@, self.operators@[i as int].0@);
                }
                return false;
            }
            i = i + 1;
        }
        let mut j: usize = 0;
        while j < other.operators.len()
            invariant
                j <= other.operators.len(),
                forall|t: int| 0 <= t < j ==> op_get(self.operators@, (#[trigger] other.operators@[t]).0@)
                    == op_get(other.operators@, other.operators@[t].0@),
            decreases other.operators.len() - j,
        {
            if find_op(&self.operators, &other.operators[j].0) != find_op(&other.operators, &other.operators[j].0) {
                proof {
                    lemma_op_get_views(self.operators@, other.operators@, other.operators@[j as int].0@);
                }
                return false;
            }
            j = j + 1;
        }
        proof {
            assert forall|k: Seq<char>| op_get(self.operators@, k) == op_get(other.operators@, k) by {
                lemma_op_get_contains(self.operators@, k);
                lemma_op_get_contains(other.operators@, k);
                if op_keys(self.operators@).contains(k) {
                    let t = choose|t: int| 0 <= t < self.operators@.len() && op_keys(self.operators@)[t] == k;
                    assert(self.operators@[t].0@ == k);
                } else if op_keys(other.operators@).contains(k) {
                    let t = choose|t: int| 0 <= t < other.operators@.len() && op_keys(other.operators@)[t] == k;
                    assert(other.operators@[t].0@ == k);
                }
            }
            assert(self@.operators =~= other@.operators);
        }
        true
    }

    /// The sum of a sequence of vectors.
    pub fn sum(vectors: Vec<CodeVector>) -> (res: Self)
        requires
            forall|i: int| 0 <= i < vectors@.len() ==> ops_distinct((#[trigger] vectors@[i]).operators@),
            model_fits(model_sum(vectors_view(vectors@))),
        ensures
            res@ == model_sum(vectors_view(vectors@)),
            ops_distinct(res.operators@),
    {
        let ghost vs = vectors_view(vectors@);
        let mut acc = CodeVector::new();
        let mut i: usize = 0;
        proof {
            assert(vs.take(0) =~= Seq::<CodeVectorModel>::empty());
        }
        while i < vectors.len()
            invariant
                i <= vectors.len(),
                vs == vectors_view(vectors@),
                model_fits(model_sum(vs)),
                forall|i: int| 0 <= i < vectors@.len() ==> ops_distinct((#[trigger] vectors@[i]).operators@),
                acc@ == model_sum(vs.take(i as int)),
                ops_distinct(acc.operators@),
            decreases vectors.len() - i,
        {
            proof {
                assert(vs.take(i + 1).drop_last() =~= vs.take(i as int));
                lemma_sum_prefix_le(vs, i + 1);
                lemma_fits_le(model_sum(vs.take(i + 1)), model_sum(vs));
            }
            let v = vectors[i].copy();
            acc = acc.add(v);
            i = i + 1;
        }
        proof {
            assert(vs.take(vectors.len() as int) =~= vs);
        }
        acc
    }
}

/// Whether every count of one vector is at most the matching count of another.
pub open spec fn model_le(a: CodeVectorModel, b: CodeVectorModel) -> bool {
    &&& a.builtin_bool <= b.builtin_bool
    &&& a.builtin_int <= b.builtin_int
    &&& a.builtin_fn <= b.builtin_fn
    &&& a.memory_access <= b.memory_access
    &&& a.tuple_expression <= b.tuple_expression
    &&& a.element_access <= b.element_access
    &&& a.value_expression <= b.value_expression
    &&& a.fn_call <= b.fn_call
    &&& a.ctor_call <= b.ctor_call
    &&& a.lambda <= b.lambda
    &&& a.assignment <= b.assignment
    &&& a.if_statement <= b.if_statement
    &&& a.match_statement <= b.match_statement
    &&& forall|k: Seq<char>| #[trigger] a.operators.contains_key(k) ==> b.operators.contains_key(k)
        && a.operators[k] <= b.operators[k]
}

/// The sum of a prefix of vectors is at most the sum of all of them.
proof fn lemma_sum_prefix_le(vs: Seq<CodeVectorModel>, i: int)
    requires
        0 <= i <= vs.len(),
    ensures
        model_le(model_sum(vs.take(i)), model_sum(vs)),
    decreases vs.len(),
{
    if i == vs.len() {
        assert(vs.take(i) =~= vs);
    } else {
        assert(vs.drop_last().take(i) =~= vs.take(i));
        lemma_sum_prefix_le(vs.drop_last(), i);
        let a = model_sum(vs.take(i));
        let b = model_sum(vs.drop_last());
        let c = model_sum(vs);
        assert forall|k: Seq<char>| #[trigger] a.operators.contains_key(k) implies c.operators.contains_key(k)
            && a.operators[k] <= c.operators[k] by {
            assert(b.operators.contains_key(k));
        }
    }
}

/// Counts below counts that fit also fit.
pub proof fn lemma_fits_le(a: CodeVectorModel, b: CodeVectorModel)
    requires
        model_le(a, b),
        model_fits(b),
    ensures
        model_fits(a),
{
    assert forall|k: Seq<char>| a.operators.contains_key(k) implies #[trigger] a.operators[k] <= usize::MAX by {
        assert(b.operators.contains_key(k));
        assert(b.operators[k] <= usize::MAX);
    }
}

/// Each term of a sum is at most the sum.
pub proof fn lemma_le_add(a: CodeVectorModel, b: CodeVectorModel)
    ensures
        model_le(a, model_add(a, b)),
        model_le(b, model_add(a, b)),
{
}

/// Being at most another vector is transitive.
pub proof fn lemma_le_trans(a: CodeVectorModel, b: CodeVectorModel, c: CodeVectorModel)
    requires
        model_le(a, b),
        model_le(b, c),
    ensures
        model_le(a, c),
{
    assert forall|k: Seq<char>| #[trigger] a.operators.contains_key(k) implies c.operators.contains_key(k)
        && a.operators[k] <= c.operators[k] by {
        assert(b.operators.contains_key(k));
    }
}

impl PartialEq for CodeVector {
    fn eq(&self, other: &Self) -> (res: bool) {
        self.same(other)
    }
}

impl vstd::std_specs::cmp::PartialEqSpecImpl for CodeVector {
    open spec fn obeys_eq_spec() -> bool {
        true
    }

    open spec fn eq_spec(&self, other: &Self) -> bool {
        self@ == other@
    }
}

/// The operators whose sizes are known, with the size of the code of each.
pub open spec fn operator_sizes() -> Seq<(Seq<char>, nat)> {
    seq![("**"@, 12nat), ("*"@, 9nat), ("/"@, 10nat), ("%"@, 10nat), ("+"@, 9nat), ("-"@, 9nat), (">>"@, 9nat), ("<<"@, 9nat), ("<=>"@, 9nat), ("&"@, 9nat), ("^"@, 9nat), ("|"@, 9nat), ("++"@, 8nat), ("--"@, 8nat), ("<"@, 9nat), ("<="@, 9nat), (">"@, 9nat), (">="@, 9nat), ("=="@, 9nat), ("!="@, 9nat), ("!"@, 8nat)]
}

/// The size of the code of each kind of node, and of each built-in operator.
#[verifier::rlimit(50)]
pub fn code_size_constants() -> (res: CodeVector)
    ensures
        res.builtin_bool == 0,
        res.builtin_int == 0,
        res.builtin_fn == 0,
        res.memory_access == 0,
        res.tuple_expression == 7,
        res.element_access == 0,
        res.value_expression == 0,
        res.fn_call == 98,
        res.ctor_call == 14,
        res.lambda == 0,
        res.assignment == 0,
        res.if_statement == 8,
        res.match_statement == 8,
        res.operators@.len() == operator_sizes().len(),
        forall|i: int| 0 <= i < operator_sizes().len() ==> (#[trigger] res.operators@[i]).0@ == operator_sizes()[i].0
            && res.operators@[i].1 == operator_sizes()[i].1,
        ops_distinct(res.operators@),
{
    let mut operators: Vec<(Id, usize)> = Vec::new();
    operators.push((String::from_str("**"), 12));
    operators.push((String::from_str("*"), 9));
    operators.push((String::from_str("/"), 10));
    operators.push((String::from_str("%"), 10));
    operators.push((String::from_str("+"), 9));
    operators.push((String::from_str("-"), 9));
    operators.push((String::from_str(">>"), 9));
    operators.push((String::from_str("<<"), 9));
    operators.push((String::from_str("<=>"), 9));
    operators.push((String::from_str("&"), 9));
    operators.push((String::from_str("^"), 9));
    operators.push((String::from_str("|"), 9));
    operators.push((String::from_str("++"), 8));
    operators.push((String::from_str("--"), 8));
    operators.push((String::from_str("<"), 9));
    operators.push((String::from_str("<="), 9));
    operators.push((String::from_str(">"), 9));
    operators.push((String::from_str(">="), 9));
    operators.push((String::from_str("=="), 9));
    operators.push((String::from_str("!="), 9));
    operators.push((String::from_str("!"), 8));
    proof {
        reveal_strlit("**");
        reveal_strlit("*");
        reveal_strlit("/");
        reveal_strlit("%");
        reveal_strlit("+");
        reveal_strlit("-");
        reveal_strlit(">>");
        reveal_strlit("<<");
        reveal_strlit("<=>");
        reveal_strlit("&");
        reveal_strlit("^");
        reveal_strlit("|");
        reveal_strlit("++");
        reveal_strlit("--");
        reveal_strlit("<");
        reveal_strlit("<=");
        reveal_strlit(">");
        reveal_strlit(">=");
        reveal_strlit("==");
        reveal_strlit("!=");
        reveal_strlit("!");
        assert(op_keys(operators@) =~= operator_sizes().map_values(|p: (Seq<char>, nat)| p.0));
        let keys = op_keys(operators@);
        assert forall|i: int, j: int| 0 <= i < keys.len() && 0 <= j < keys.len() && i != j implies keys[i] != keys[j] by {
            assert(keys[i].len() != keys[j].len() || keys[i][0] != keys[j][0] || keys[i][keys[i].len() - 1] != keys[j][keys[j].len() - 1]);
        }
    }
    CodeVector {
        builtin_bool: 0,
        builtin_int: 0,
        builtin_fn: 0,
        memory_access: 0,
        tuple_expression: 7,
        element_access: 0,
        value_expression: 0,
        fn_call: 98,
        ctor_call: 14,
        lambda: 0,
        assignment: 0,
        if_statement: 8,
        match_statement: 8,
        operators,
    }
}

/// The models of a sequence of vectors.
pub open spec fn vectors_view(vs: Seq<CodeVector>) -> Seq<CodeVectorModel> {
    vs.map_values(|v: CodeVector| v@)
}

/// A prefix of a list contributes no more to a dot product than the whole list.
proof fn lemma_ops_dot_prefix(ops: Seq<(Id, usize)>, i: int, m: Map<Seq<char>, nat>)
    requires
        0 <= i <= ops.len(),
    ensures
        ops_dot(ops.take(i), m) <= ops_dot(ops, m),
    decreases ops.len(),
{
    if i < ops.len() {
        assert(ops.drop_last().take(i) =~= ops.take(i));
        lemma_ops_dot_prefix(ops.drop_last(), i, m);
    } else {
        assert(ops.take(i) =~= ops);
    }
}

/// Scaling each entry of a list scales the count of each operator.
proof fn lemma_op_get_scaled(scaled: Seq<(Id, usize)>, ops: Seq<(Id, usize)>, n: usize, k: Seq<char>)
    requires
        scaled.len() == ops.len(),
        forall|j: int| 0 <= j < ops.len() ==> (#[trigger] scaled[j]).0@ == ops[j].0@ && scaled[j].1 == ops[j].1 * n,
    ensures
        op_get(scaled, k) == match op_get(ops, k) {
            Some(v) => Some((v * n) as usize),
            None => None,
        },
    decreases ops.len(),
{
    if ops.len() > 0 {
        lemma_op_get_scaled(scaled.drop_last(), ops.drop_last(), n, k);
    }
}

/// Equal models give each operator the same count.
proof fn lemma_op_get_views(a: Seq<(Id, usize)>, b: Seq<(Id, usize)>, k: Seq<char>)
    ensures
        ops_view(a) == ops_view(b) ==> op_get(a, k) == op_get(b, k),
{
    if ops_view(a) == ops_view(b) {
        assert(ops_view(a).contains_key(k) == ops_view(b).contains_key(k));
        if op_get(a, k) is Some {
            assert(ops_view(a)[k] == ops_view(b)[k]);
        }
    }
}

/// Lists with the same names and counts at each position count the same.
proof fn lemma_op_get_same_keys(a: Seq<(Id, usize)>, b: Seq<(Id, usize)>, k: Seq<char>)
    requires
        a.len() == b.len(),
        forall|j: int| 0 <= j < a.len() ==> (#[trigger] a[j]).0@ == b[j].0@ && a[j].1 == b[j].1,
    ensures
        op_get(a, k) == op_get(b, k),
    decreases a.len(),
{
    if a.len() > 0 {
        lemma_op_get_same_keys(a.drop_last(), b.drop_last(), k);
    }
}

// ---------------------------------------------------------------------------
// Laws of vectors.

/// Adding vectors does not depend on their order.
pub proof fn law_add_commutative(a: CodeVectorModel, b: CodeVectorModel)
    ensures
        model_add(a, b) == model_add(b, a),
{
    assert(model_add(a, b).operators =~= model_add(b, a).operators);
}

/// Adding vectors does not depend on how the sums are grouped.
pub proof fn law_add_associative(a: CodeVectorModel, b: CodeVectorModel, c: CodeVectorModel)
    ensures
        model_add(model_add(a, b), c) == model_add(a, model_add(b, c)),
{
    assert(model_add(model_add(a, b), c).operators =~= model_add(a, model_add(b, c)).operators);
}

/// The vector that counts nothing adds nothing.
pub proof fn law_add_zero(a: CodeVectorModel)
    ensures
        model_add(a, model_zero()) == a,
{
    assert(model_add(a, model_zero()).operators =~= a.operators);
}

/// Scaling a sum scales each of its terms.
pub proof fn law_scale_distributes(a: CodeVectorModel, b: CodeVectorModel, n: nat)
    ensures
        model_scale(model_add(a, b), n) == model_add(model_scale(a, n), model_scale(b, n)),
{
    assert(model_scale(model_add(a, b), n).builtin_bool == model_add(model_scale(a, n), model_scale(b, n)).builtin_bool) by (nonlinear_arith);
    assert(model_scale(model_add(a, b), n).builtin_int == model_add(model_scale(a, n), model_scale(b, n)).builtin_int) by (nonlinear_arith);
    assert(model_scale(model_add(a, b), n).builtin_fn == model_add(model_scale(a, n), model_scale(b, n)).builtin_fn) by (nonlinear_arith);
    assert(model_scale(model_add(a, b), n).memory_access == model_add(model_scale(a, n), model_scale(b, n)).memory_access) by (nonlinear_arith);
    assert(model_scale(model_add(a, b), n).tuple_expression == model_add(model_scale(a, n), model_scale(b, n)).tuple_expression) by (nonlinear_arith);
    assert(model_scale(model_add(a, b), n).element_access == model_add(model_scale(a, n), model_scale(b, n)).element_access) by (nonlinear_arith);
    assert(model_scale(model_add(a, b), n).value_expression == model_add(model_scale(a, n), model_scale(b, n)).value_expression) by (nonlinear_arith);
    assert(model_scale(model_add(a, b), n).fn_call == model_add(model_scale(a, n), model_scale(b, n)).fn_call) by (nonlinear_arith);
    assert(model_scale(model_add(a, b), n).ctor_call == model_add(model_scale(a, n), model_scale(b, n)).ctor_call) by (nonlinear_arith);
    assert(model_scale(model_add(a, b), n).lambda == model_add(model_scale(a, n), model_scale(b, n)).lambda) by (nonlinear_arith);
    assert(model_scale(model_add(a, b), n).assignment == model_add(model_scale(a, n), model_scale(b, n)).assignment) by (nonlinear_arith);
    assert(model_scale(model_add(a, b), n).if_statement == model_add(model_scale(a, n), model_scale(b, n)).if_statement) by (nonlinear_arith);
    assert(model_scale(model_add(a, b), n).match_statement == model_add(model_scale(a, n), model_scale(b, n)).match_statement) by (nonlinear_arith);
    assert forall|k: Seq<char>| model_scale(model_add(a, b), n).operators.contains_key(k) implies
        #[trigger] model_scale(model_add(a, b), n).operators[k] == model_add(model_scale(a, n), model_scale(b, n)).operators[k] by {
        let x = map_count(a.operators, k);
        let y = map_count(b.operators, k);
        assert((x + y) * n == x * n + y * n) by (nonlinear_arith);
    }
    assert(model_scale(model_add(a, b), n).operators =~= model_add(model_scale(a, n), model_scale(b, n)).operators);
}

/// Scaling by one changes nothing.
pub proof fn law_scale_one(a: CodeVectorModel)
    ensures
        model_scale(a, 1) == a,
{
    assert(model_scale(a, 1).operators =~= a.operators);
}

/// The sum of a list of vectors with one more vector is the sum of the list plus that vector.
pub proof fn law_sum_push(vs: Seq<CodeVectorModel>, v: CodeVectorModel)
    ensures
        model_sum(vs.push(v)) == model_add(model_sum(vs), v),
{
    assert(vs.push(v).drop_last() =~= vs);
}

// ---------------------------------------------------------------------------
// Text of a vector.

/// The operators and counts of an association list, as texts and numbers.
pub open spec fn pairs_view(ops: Seq<(Id, usize)>) -> Seq<(Seq<char>, nat)> {
    ops.map_values(|p: (Id, usize)| (p.0@, p.1 as nat))
}

/// A list sorted by its texts, with an entry put in its place: after every
/// entry that does not come after it.
pub open spec fn insert_by_name(t: Seq<(Seq<char>, nat)>, x: (Seq<char>, nat)) -> Seq<(Seq<char>, nat)>
    decreases t.len(),
{
    if t.len() == 0 {
        seq![x]
    } else if text_less(x.0, t[0].0) {
        seq![x] + t
    } else {
        seq![t[0]] + insert_by_name(t.drop_first(), x)
    }
}

/// The entries of a list sorted by their texts, entries with equal texts in
/// the order they come in.
pub open spec fn sorted_by_name(s: Seq<(Seq<char>, nat)>) -> Seq<(Seq<char>, nat)>
    decreases s.len(),
{
    if s.len() == 0 {
        Seq::empty()
    } else {
        insert_by_name(sorted_by_name(s.drop_last()), s.last())
    }
}

/// Inserting after the first `j` entries, none of which comes after the new
/// entry, where the next one does, is putting it in its place.
proof fn lemma_insert_by_name(t: Seq<(Seq<char>, nat)>, x: (Seq<char>, nat), j: int)
    requires
        0 <= j <= t.len(),
        forall|m: int| 0 <= m < j ==> !text_less(x.0, #[trigger] t[m].0),
        j < t.len() ==> text_less(x.0, t[j].0),
    ensures
        insert_by_name(t, x) == t.insert(j, x),
    decreases t.len(),
{
    if t.len() == 0 {
        assert(t.insert(j, x) =~= seq![x]);
    } else if j == 0 {
        assert(t.insert(0, x) =~= seq![x] + t);
    } else {
        assert forall|m: int| 0 <= m < j - 1 implies !text_less(x.0, #[trigger] t.drop_first()[m].0) by {
            assert(t.drop_first()[m] == t[m + 1]);
        }
        lemma_insert_by_name(t.drop_first(), x, j - 1);
        assert(t.insert(j, x) =~= seq![t[0]] + t.drop_first().insert(j - 1, x));
    }
}

/// The operators of an association list, sorted by name.
pub fn sorted_operators(ops: &Vec<(Id, usize)>) -> (res: Vec<(Id, usize)>)
    ensures
        pairs_view(res@) == sorted_by_name(pairs_view(ops@)),
{
    let ghost s = pairs_view(ops@);
    let mut out: Vec<(Id, usize)> = Vec::new();
    let mut i: usize = 0;
    proof {
        assert(s.take(0) =~= Seq::<(Seq<char>, nat)>::empty());
        assert(pairs_view(out@) =~= Seq::<(Seq<char>, nat)>::empty());
    }
    while i < ops.len()
        invariant
            i <= ops.len(),
            s == pairs_view(ops@),
            pairs_view(out@) == sorted_by_name(s.take(i as int)),
        decreases ops.len() - i,
    {
        let name = &ops[i].0;
        let count = ops[i].1;
        let ghost x = s[i as int];
        let ghost t = pairs_view(out@);
        let mut j: usize = 0;
        while j < out.len()
            invariant
                j <= out.len(),
                t == pairs_view(out@),
                x == (name@, count as nat),
                forall|m: int| 0 <= m < j ==> !text_less(x.0, #[trigger] t[m].0),
            ensures
                j <= out.len(),
                forall|m: int| 0 <= m < j ==> !text_less(x.0, #[trigger] t[m].0),
                j < out.len() ==> text_less(x.0, t[j as int].0),
            decreases out.len() - j,
        {
            if string_less(name, &out[j].0) {
                break;
            }
            j = j + 1;
        }
        proof {
            lemma_insert_by_name(t, x, j as int);
            assert(s.take(i + 1).drop_last() =~= s.take(i as int));
            assert(s.take(i + 1).last() == x);
        }
        out.insert(j, (name.clone(), count));
        proof {
            assert(pairs_view(out@) =~= t.insert(j as int, x));
        }
        i = i + 1;
    }
    proof {
        assert(s.take(ops.len() as int) =~= s);
    }
    out
}

/// The names of the counts of a vector, in order.
pub open spec fn field_names() -> Seq<Seq<char>> {
    seq!["builtin_bool"@, "builtin_int"@, "builtin_fn"@, "memory_access"@, "tuple_expression"@, "element_access"@,
        "value_expression"@, "fn_call"@, "ctor_call"@, "lambda"@, "assignment"@, "if_statement"@, "match_statement"@]
}

/// The counts of a vector, in the order of their names.
pub open spec fn field_counts(v: CodeVectorModel) -> Seq<nat> {
    seq![v.builtin_bool, v.builtin_int, v.builtin_fn, v.memory_access, v.tuple_expression, v.element_access,
        v.value_expression, v.fn_call, v.ctor_call, v.lambda, v.assignment, v.if_statement, v.match_statement]
}

/// The text of a vector: a line of tab-separated names, the counts' names and
/// then the operators in order of their names, and a line of their counts.
pub open spec fn vector_text(v: CodeVectorModel, ops: Seq<(Seq<char>, nat)>) -> Seq<char> {
    let sorted = sorted_by_name(ops);
    join(field_names() + sorted.map_values(|p: (Seq<char>, nat)| p.0), "\t"@) + "\n"@
        + join((field_counts(v) + sorted.map_values(|p: (Seq<char>, nat)| p.1)).map_values(|n: nat| decimal(n)), "\t"@)
}

impl CodeVector {
    /// The text of the vector, as written to a file of vectors.
    #[verifier::rlimit(40)]
    pub fn to_string(&self) -> (res: String)
        ensures
            res@ == vector_text(self@, pairs_view(self.operators@)),
    {
        let sorted = sorted_operators(&self.operators);
        let ghost sv = pairs_view(sorted@);
        let mut names: Vec<String> = Vec::new();
        names.push(String::from_str("builtin_bool"));
        names.push(String::from_str("builtin_int"));
        names.push(String::from_str("builtin_fn"));
        names.push(String::from_str("memory_access"));
        names.push(String::from_str("tuple_expression"));
        names.push(String::from_str("element_access"));
        names.push(String::from_str("value_expression"));
        names.push(String::from_str("fn_call"));
        names.push(String::from_str("ctor_call"));
        names.push(String::from_str("lambda"));
        names.push(String::from_str("assignment"));
        names.push(String::from_str("if_statement"));
        names.push(String::from_str("match_statement"));
        let mut counts: Vec<String> = Vec::new();
        counts.push(usize_to_text(self.builtin_bool));
        counts.push(usize_to_text(self.builtin_int));
        counts.push(usize_to_text(self.builtin_fn));
        counts.push(usize_to_text(self.memory_access));
        counts.push(usize_to_text(self.tuple_expression));
        counts.push(usize_to_text(self.element_access));
        counts.push(usize_to_text(self.value_expression));
        counts.push(usize_to_text(self.fn_call));
        counts.push(usize_to_text(self.ctor_call));
        counts.push(usize_to_text(self.lambda));
        counts.push(usize_to_text(self.assignment));
        counts.push(usize_to_text(self.if_statement));
        counts.push(usize_to_text(self.match_statement));
        proof {
            reveal_strlit("builtin_bool");
            reveal_strlit("builtin_int");
            reveal_strlit("builtin_fn");
            reveal_strlit("memory_access");
            reveal_strlit("tuple_expression");
            reveal_strlit("element_access");
            reveal_strlit("value_expression");
            reveal_strlit("fn_call");
            reveal_strlit("ctor_call");
            reveal_strlit("lambda");
            reveal_strlit("assignment");
            reveal_strlit("if_statement");
            reveal_strlit("match_statement");
            assert(strings_view(names@) =~= field_names());
            assert(strings_view(counts@) =~= field_counts(self@).map_values(|n: nat| decimal(n)));
        }
        let mut i: usize = 0;
        while i < sorted.len()
            invariant
                i <= sorted.len(),
                sv == pairs_view(sorted@),
                strings_view(names@) == field_names() + sv.take(i as int).map_values(|p: (Seq<char>, nat)| p.0),
                strings_view(counts@) == (field_counts(self@) + sv.take(i as int).map_values(|p: (Seq<char>, nat)| p.1)).map_values(
                    |n: nat| decimal(n),
                ),
            decreases sorted.len() - i,
        {
            let ghost (n0, c0) = (names@, counts@);
            names.push(sorted[i].0.clone());
            counts.push(usize_to_text(sorted[i].1));
            proof {
                assert(sv.take(i + 1) =~= sv.take(i as int).push(sv[i as int]));
                assert(strings_view(names@) =~= strings_view(n0).push(sv[i as int].0));
                assert(strings_view(names@) =~= field_names() + sv.take(i + 1).map_values(|p: (Seq<char>, nat)| p.0));
                assert(strings_view(counts@) =~= strings_view(c0).push(decimal(sv[i as int].1)));
                assert(strings_view(counts@) =~= (field_counts(self@) + sv.take(i + 1).map_values(|p: (Seq<char>, nat)| p.1)).map_values(
                    |n: nat| decimal(n),
                ));
            }
            i = i + 1;
        }
        proof {
            assert(sv.take(sorted.len() as int) =~= sv);
        }
        let mut out = String::new();
        append_joined(&mut out, &names, "\t");
        out.append("\n");
        append_joined(&mut out, &counts, "\t");
        proof {
            reveal_strlit("\t");
            reveal_strlit("\n");
            assert(out@ =~= vector_text(self@, pairs_view(self.operators@)));
        }
        out
    }
}

} // verus!
