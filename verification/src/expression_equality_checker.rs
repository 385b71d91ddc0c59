//! Checking that two intermediate expressions are the same up to a consistent,
//! one-to-one renaming of their locations. Where two expressions differ (other
//! variants, indices, lengths or values, or a location that would be paired
//! with a second one), the checker answers `false`: that answer stands for a
//! failed equality assertion, and callers that must stop on it test it.

use std::collections::HashMap;
use vstd::prelude::*;
use crate::equality::{builtin_eq, union_type_eq};
use crate::intermediate::{
    args_view, branches_view, lemma_block_view, lemma_match_view, statements_view, values_view,
    IntermediateArg, IntermediateAssignment, IntermediateBlock, IntermediateExpression,
    IntermediateMatchBranch, IntermediateMemory, IntermediateStatement, IntermediateValue,
    Location,
};
use crate::ir_model::{
    AssignmentModel, BlockModel, BranchModel, ExpressionModel, SlotModel, ValueModel,
};

verus! {

broadcast use vstd::std_specs::hash::group_hash_axioms;

/// What the checker has learnt: the pairs of locations assumed equal, in both
/// directions, and the pairs of assignment targets whose expressions have been
/// compared, in both directions.
pub struct CheckerModel {
    pub left_true: Map<usize, usize>,
    pub right_true: Map<usize, usize>,
    pub left: Map<usize, usize>,
    pub right: Map<usize, usize>,
}

pub open spec fn initial_checker() -> CheckerModel {
    CheckerModel { left_true: Map::empty(), right_true: Map::empty(), left: Map::empty(), right: Map::empty() }
}

/// Two locations are equal if they are already paired; otherwise, if neither is
/// paired with another location, they become paired.
pub open spec fn check_locations(s: CheckerModel, l1: usize, l2: usize) -> Option<CheckerModel> {
    if s.left.contains_key(l1) && s.left[l1] == l2 {
        Some(s)
    } else if s.left.contains_key(l1) || s.right.contains_key(l2) {
        None
    } else {
        Some(CheckerModel { left: s.left.insert(l1, l2), right: s.right.insert(l2, l1), ..s })
    }
}

pub open spec fn check_value(s: CheckerModel, v1: ValueModel, v2: ValueModel) -> Option<CheckerModel> {
    match (v1, v2) {
        (ValueModel::BuiltIn(b1), ValueModel::BuiltIn(b2)) => if b1 == b2 { Some(s) } else { None },
        (ValueModel::Arg(a1), ValueModel::Arg(a2)) => check_locations(s, a1.location, a2.location),
        (ValueModel::Memory(m1), ValueModel::Memory(m2)) => check_locations(s, m1.location, m2.location),
        _ => None,
    }
}

/// Values compared pairwise, in order.
pub open spec fn check_values(s: CheckerModel, vs1: Seq<ValueModel>, vs2: Seq<ValueModel>) -> Option<CheckerModel>
    decreases vs1.len(),
{
    if vs1.len() != vs2.len() {
        None
    } else if vs1.len() == 0 {
        Some(s)
    } else {
        match check_values(s, vs1.drop_last(), vs2.drop_last()) {
            None => None,
            Some(s2) => check_value(s2, vs1.last(), vs2.last()),
        }
    }
}

/// Arguments compared pairwise, in order.
pub open spec fn check_args(s: CheckerModel, as1: Seq<SlotModel>, as2: Seq<SlotModel>) -> Option<CheckerModel>
    decreases as1.len(),
{
    if as1.len() != as2.len() {
        None
    } else if as1.len() == 0 {
        Some(s)
    } else {
        match check_args(s, as1.drop_last(), as2.drop_last()) {
            None => None,
            Some(s2) => check_locations(s2, as1.last().location, as2.last().location),
        }
    }
}

pub open spec fn check_expression(s: CheckerModel, e1: ExpressionModel, e2: ExpressionModel) -> Option<CheckerModel>
    decreases e1,
{
    match (e1, e2) {
        (ExpressionModel::Value(v1), ExpressionModel::Value(v2)) => check_value(s, v1, v2),
        (ExpressionModel::ElementAccess(v1, i1), ExpressionModel::ElementAccess(v2, i2)) =>
            if i1 == i2 { check_value(s, v1, v2) } else { None },
        (ExpressionModel::Tuple(vs1), ExpressionModel::Tuple(vs2)) => check_values(s, vs1, vs2),
        (ExpressionModel::FnCall(f1, a1), ExpressionModel::FnCall(f2, a2)) => match check_values(s, a1, a2) {
            None => None,
            Some(s2) => check_value(s2, f1, f2),
        },
        (ExpressionModel::CtorCall(i1, d1, t1), ExpressionModel::CtorCall(i2, d2, t2)) => {
            if i1 != i2 || t1 != t2 {
                None
            } else {
                match (d1, d2) {
                    (None, None) => Some(s),
                    (Some(x1), Some(x2)) => check_value(s, x1, x2),
                    _ => None,
                }
            }
        },
        (ExpressionModel::Lambda(l1), ExpressionModel::Lambda(l2)) => match check_args(s, l1.args, l2.args) {
            None => None,
            Some(s2) => check_block(s2, l1.block, l2.block),
        },
        (ExpressionModel::If(c1, t1, f1), ExpressionModel::If(c2, t2, f2)) => match check_value(s, c1, c2) {
            None => None,
            Some(s2) => match check_block(s2, t1, t2) {
                None => None,
                Some(s3) => check_block(s3, f1, f2),
            },
        },
        (ExpressionModel::Match(x1, b1), ExpressionModel::Match(x2, b2)) => match check_value(s, x1, x2) {
            None => None,
            Some(s2) => check_branches(s2, b1, b2),
        },
        _ => None,
    }
}

pub open spec fn check_block(s: CheckerModel, b1: BlockModel, b2: BlockModel) -> Option<CheckerModel>
    decreases b1,
{
    match check_statements(s, b1.statements, b2.statements) {
        None => None,
        Some(s2) => check_value(s2, b1.ret, b2.ret),
    }
}

pub open spec fn check_statements(s: CheckerModel, st1: Seq<AssignmentModel>, st2: Seq<AssignmentModel>) -> Option<CheckerModel>
    decreases st1,
{
    if st1.len() != st2.len() {
        None
    } else if st1.len() == 0 {
        Some(s)
    } else {
        match check_statements(s, st1.drop_last(), st2.drop_last()) {
            None => None,
            Some(s2) => check_assignment(s2, st1.last(), st2.last()),
        }
    }
}

/// Two assignments are equal if their targets were already compared as
/// assignment targets; otherwise their targets must be paired (or become paired)
/// and their expressions must be equal.
pub open spec fn check_assignment(s: CheckerModel, a1: AssignmentModel, a2: AssignmentModel) -> Option<CheckerModel>
    decreases a1,
{
    let (l1, l2) = (a1.location, a2.location);
    if s.left_true.contains_key(l1) && s.left_true[l1] == l2 {
        Some(s)
    } else if s.left.contains_key(l1) && s.left[l1] == l2 {
        check_expression(CheckerModel {
            left_true: s.left_true.insert(l1, l2),
            right_true: s.right_true.insert(l2, l1),
            ..s
        }, a1.expression, a2.expression)
    } else if s.left_true.contains_key(l1) || s.right_true.contains_key(l2) || s.left.contains_key(l1) || s.right.contains_key(l2) {
        None
    } else {
        check_expression(CheckerModel {
            left_true: s.left_true.insert(l1, l2),
            right_true: s.right_true.insert(l2, l1),
            left: s.left.insert(l1, l2),
            right: s.right.insert(l2, l1),
        }, a1.expression, a2.expression)
    }
}

pub open spec fn check_branch(s: CheckerModel, b1: BranchModel, b2: BranchModel) -> Option<CheckerModel>
    decreases b1,
{
    let s2 = match (b1.target, b2.target) {
        (None, None) => Some(s),
        (Some(t1), Some(t2)) => check_locations(s, t1.location, t2.location),
        _ => None,
    };
    match s2 {
        None => None,
        Some(s2) => check_block(s2, b1.block, b2.block),
    }
}

pub open spec fn check_branches(s: CheckerModel, bs1: Seq<BranchModel>, bs2: Seq<BranchModel>) -> Option<CheckerModel>
    decreases bs1,
{
    if bs1.len() != bs2.len() {
        None
    } else if bs1.len() == 0 {
        Some(s)
    } else {
        match check_branches(s, bs1.drop_last(), bs2.drop_last()) {
            None => None,
            Some(s2) => check_branch(s2, bs1.last(), bs2.last()),
        }
    }
}

proof fn lemma_check_values_fails(s: CheckerModel, vs1: Seq<ValueModel>, vs2: Seq<ValueModel>, i: int, j: int)
    requires
        0 <= i <= j <= vs1.len(),
        vs1.len() == vs2.len(),
        check_values(s, vs1.take(i), vs2.take(i)) is None,
    ensures
        check_values(s, vs1.take(j), vs2.take(j)) is None,
    decreases j - i,
{
    if i < j {
        lemma_check_values_fails(s, vs1, vs2, i, j - 1);
        assert(vs1.take(j).drop_last() =~= vs1.take(j - 1));
        assert(vs2.take(j).drop_last() =~= vs2.take(j - 1));
    }
}

proof fn lemma_check_args_fails(s: CheckerModel, as1: Seq<SlotModel>, as2: Seq<SlotModel>, i: int, j: int)
    requires
        0 <= i <= j <= as1.len(),
        as1.len() == as2.len(),
        check_args(s, as1.take(i), as2.take(i)) is None,
    ensures
        check_args(s, as1.take(j), as2.take(j)) is None,
    decreases j - i,
{
    if i < j {
        lemma_check_args_fails(s, as1, as2, i, j - 1);
        assert(as1.take(j).drop_last() =~= as1.take(j - 1));
        assert(as2.take(j).drop_last() =~= as2.take(j - 1));
    }
}

proof fn lemma_check_statements_fails(s: CheckerModel, st1: Seq<AssignmentModel>, st2: Seq<AssignmentModel>, i: int, j: int)
    requires
        0 <= i <= j <= st1.len(),
        st1.len() == st2.len(),
        check_statements(s, st1.take(i), st2.take(i)) is None,
    ensures
        check_statements(s, st1.take(j), st2.take(j)) is None,
    decreases j - i,
{
    if i < j {
        lemma_check_statements_fails(s, st1, st2, i, j - 1);
        assert(st1.take(j).drop_last() =~= st1.take(j - 1));
        assert(st2.take(j).drop_last() =~= st2.take(j - 1));
    }
}

proof fn lemma_check_branches_fails(s: CheckerModel, bs1: Seq<BranchModel>, bs2: Seq<BranchModel>, i: int, j: int)
    requires
        0 <= i <= j <= bs1.len(),
        bs1.len() == bs2.len(),
        check_branches(s, bs1.take(i), bs2.take(i)) is None,
    ensures
        check_branches(s, bs1.take(j), bs2.take(j)) is None,
    decreases j - i,
{
    if i < j {
        lemma_check_branches_fails(s, bs1, bs2, i, j - 1);
        assert(bs1.take(j).drop_last() =~= bs1.take(j - 1));
        assert(bs2.take(j).drop_last() =~= bs2.take(j - 1));
    }
}

/// Checks whether two expressions are equal up to a one-to-one renaming of their
/// locations, remembering which locations it has paired.
pub struct ExpressionEqualityChecker {
    left_true_history: HashMap<usize, usize>,
    right_true_history: HashMap<usize, usize>,
    left_history: HashMap<usize, usize>,
    right_history: HashMap<usize, usize>,
}

impl View for ExpressionEqualityChecker {
    type V = CheckerModel;

    closed spec fn view(&self) -> CheckerModel {
        CheckerModel {
            left_true: self.left_true_history@,
            right_true: self.right_true_history@,
            left: self.left_history@,
            right: self.right_history@,
        }
    }
}

impl ExpressionEqualityChecker {
    /// Whether two expressions are equal up to a one-to-one renaming of their
    /// locations, starting from no assumptions; `false` stands for a failed
    /// equality assertion.
    pub fn assert_equal(e1: &IntermediateExpression, e2: &IntermediateExpression) -> (res: bool)
        ensures
            res == check_expression(initial_checker(), e1@, e2@) is Some,
    {
        let mut checker = Self::new();
        checker.assert_equal_expression(e1, e2)
    }

    /// A checker that has paired no locations.
    pub fn new() -> (res: Self)
        ensures
            res@ == initial_checker(),
    {
        let res = ExpressionEqualityChecker {
            left_true_history: HashMap::new(),
            right_true_history: HashMap::new(),
            left_history: HashMap::new(),
            right_history: HashMap::new(),
        };
        proof {
            assert(res@.left_true =~= Map::empty());
            assert(res@.right_true =~= Map::empty());
            assert(res@.left =~= Map::empty());
            assert(res@.right =~= Map::empty());
        }
        res
    }

    /// Checks two locations against the pairing, pairing them if neither is
    /// paired; `false` (a location already paired with another one) stands for
    /// a failed equality assertion, and leaves the pairing as it was.
    pub fn assert_equal_locations(&mut self, l1: &Location, l2: &Location) -> (res: bool)
        ensures
            res == check_locations(old(self)@, l1.0, l2.0) is Some,
            res ==> final(self)@ == check_locations(old(self)@, l1.0, l2.0).unwrap(),
    {
        match self.left_history.get(&l1.0) {
            Some(l) => {
                if *l == l2.0 {
                    return true;
                }
                return false;
            },
            None => {},
        }
        if self.right_history.contains_key(&l2.0) {
            return false;
        }
        let ghost s = self@;
        self.left_history.insert(l1.0, l2.0);
        self.right_history.insert(l2.0, l1.0);
        proof {
            assert(self@ == check_locations(s, l1.0, l2.0).unwrap());
        }
        true
    }

    fn assert_equal_memory(&mut self, m1: &IntermediateMemory, m2: &IntermediateMemory) -> (res: bool)
        ensures
            res == check_locations(old(self)@, m1.location.0, m2.location.0) is Some,
            res ==> final(self)@ == check_locations(old(self)@, m1.location.0, m2.location.0).unwrap(),
    {
        self.assert_equal_locations(&m1.location, &m2.location)
    }

    fn assert_equal_arg(&mut self, a1: &IntermediateArg, a2: &IntermediateArg) -> (res: bool)
        ensures
            res == check_locations(old(self)@, a1.location.0, a2.location.0) is Some,
            res ==> final(self)@ == check_locations(old(self)@, a1.location.0, a2.location.0).unwrap(),
    {
        self.assert_equal_locations(&a1.location, &a2.location)
    }

    fn assert_equal_args(&mut self, a1: &Vec<IntermediateArg>, a2: &Vec<IntermediateArg>) -> (res: bool)
        ensures
            res == check_args(old(self)@, args_view(a1@), args_view(a2@)) is Some,
            res ==> final(self)@ == check_args(old(self)@, args_view(a1@), args_view(a2@)).unwrap(),
    {
        let ghost s0 = self@;
        let ghost xs = args_view(a1@);
        let ghost ys = args_view(a2@);
        if a1.len() != a2.len() {
            return false;
        }
        let mut i: usize = 0;
        while i < a1.len()
            invariant
                i <= a1.len(),
                a1.len() == a2.len(),
                s0 == old(self)@,
                xs == args_view(a1@),
                ys == args_view(a2@),
                check_args(s0, xs.take(i as int), ys.take(i as int)) == Some(self@),
            decreases a1.len() - i,
        {
            proof {
                assert(xs.take(i + 1).drop_last() =~= xs.take(i as int));
                assert(ys.take(i + 1).drop_last() =~= ys.take(i as int));
            }
            let ghost before = self@;
            if !self.assert_equal_arg(&a1[i], &a2[i]) {
                proof {
                    assert(xs.take(i + 1).last() == xs[i as int]);
                    assert(ys.take(i + 1).last() == ys[i as int]);
                    lemma_check_args_fails(s0, xs, ys, i + 1, a1.len() as int);
                    assert(xs.take(a1.len() as int) =~= xs);
                    assert(ys.take(a1.len() as int) =~= ys);
                }
                return false;
            }
            i = i + 1;
        }
        proof {
            assert(xs.take(a1.len() as int) =~= xs);
            assert(ys.take(a1.len() as int) =~= ys);
        }
        true
    }

    fn assert_equal_value(&mut self, v1: &IntermediateValue, v2: &IntermediateValue) -> (res: bool)
        ensures
            res == check_value(old(self)@, v1@, v2@) is Some,
            res ==> final(self)@ == check_value(old(self)@, v1@, v2@).unwrap(),
    {
        match (v1, v2) {
            (IntermediateValue::IntermediateBuiltIn(b1), IntermediateValue::IntermediateBuiltIn(b2)) => builtin_eq(b1, b2),
            (IntermediateValue::IntermediateArg(a1), IntermediateValue::IntermediateArg(a2)) => self.assert_equal_arg(a1, a2),
            (IntermediateValue::IntermediateMemory(m1), IntermediateValue::IntermediateMemory(m2)) => self.assert_equal_memory(m1, m2),
            _ => false,
        }
    }

    fn assert_equal_values(&mut self, values1: &Vec<IntermediateValue>, values2: &Vec<IntermediateValue>) -> (res: bool)
        ensures
            res == check_values(old(self)@, values_view(values1@), values_view(values2@)) is Some,
            res ==> final(self)@ == check_values(old(self)@, values_view(values1@), values_view(values2@)).unwrap(),
    {
        let ghost s0 = self@;
        let ghost xs = values_view(values1@);
        let ghost ys = values_view(values2@);
        if values1.len() != values2.len() {
            return false;
        }
        let mut i: usize = 0;
        while i < values1.len()
            invariant
                i <= values1.len(),
                values1.len() == values2.len(),
                s0 == old(self)@,
                xs == values_view(values1@),
                ys == values_view(values2@),
                check_values(s0, xs.take(i as int), ys.take(i as int)) == Some(self@),
            decreases values1.len() - i,
        {
            proof {
                assert(xs.take(i + 1).drop_last() =~= xs.take(i as int));
                assert(ys.take(i + 1).drop_last() =~= ys.take(i as int));
            }
            let ghost before = self@;
            if !self.assert_equal_value(&values1[i], &values2[i]) {
                proof {
                    assert(xs.take(i + 1).last() == xs[i as int]);
                    assert(ys.take(i + 1).last() == ys[i as int]);
                    lemma_check_values_fails(s0, xs, ys, i + 1, values1.len() as int);
                    assert(xs.take(values1.len() as int) =~= xs);
                    assert(ys.take(values1.len() as int) =~= ys);
                }
                return false;
            }
            i = i + 1;
        }
        proof {
            assert(xs.take(values1.len() as int) =~= xs);
            assert(ys.take(values1.len() as int) =~= ys);
        }
        true
    }

    fn assert_equal_assignment(&mut self, m1: &IntermediateAssignment, m2: &IntermediateAssignment) -> (res: bool)
        ensures
            res == check_assignment(old(self)@, m1@, m2@) is Some,
            res ==> final(self)@ == check_assignment(old(self)@, m1@, m2@).unwrap(),
        decreases m1,
    {
        let (l1, l2) = (m1.location.0, m2.location.0);
        match self.left_true_history.get(&l1) {
            Some(l) => {
                if *l == l2 {
                    return true;
                }
            },
            None => {},
        }
        let assumed = match self.left_history.get(&l1) {
            Some(l) => *l == l2,
            None => false,
        };
        if assumed {
            self.left_true_history.insert(l1, l2);
            self.right_true_history.insert(l2, l1);
            self.assert_equal_expression(&m1.expression, &m2.expression)
        } else {
            if self.left_true_history.contains_key(&l1) || self.right_true_history.contains_key(&l2)
                || self.left_history.contains_key(&l1) || self.right_history.contains_key(&l2) {
                return false;
            }
            self.left_history.insert(l1, l2);
            self.right_history.insert(l2, l1);
            self.left_true_history.insert(l1, l2);
            self.right_true_history.insert(l2, l1);
            self.assert_equal_expression(&m1.expression, &m2.expression)
        }
    }

    /// Whether two expressions are equal under the pairing learnt so far,
    /// extending it; `false` stands for a failed equality assertion.
    fn assert_equal_expression(&mut self, e1: &IntermediateExpression, e2: &IntermediateExpression) -> (res: bool)
        ensures
            res == check_expression(old(self)@, e1@, e2@) is Some,
            res ==> final(self)@ == check_expression(old(self)@, e1@, e2@).unwrap(),
        decreases e1,
    {
        match (e1, e2) {
            (IntermediateExpression::IntermediateValue(v1), IntermediateExpression::IntermediateValue(v2)) =>
                self.assert_equal_value(v1, v2),
            (IntermediateExpression::IntermediateElementAccess(a1), IntermediateExpression::IntermediateElementAccess(a2)) => {
                if a1.idx != a2.idx {
                    return false;
                }
                self.assert_equal_value(&a1.value, &a2.value)
            },
            (IntermediateExpression::IntermediateTupleExpression(t1), IntermediateExpression::IntermediateTupleExpression(t2)) =>
                self.assert_equal_values(&t1.0, &t2.0),
            (IntermediateExpression::IntermediateFnCall(f1), IntermediateExpression::IntermediateFnCall(f2)) => {
                if !self.assert_equal_values(&f1.args, &f2.args) {
                    return false;
                }
                self.assert_equal_value(&f1.fn_, &f2.fn_)
            },
            (IntermediateExpression::IntermediateCtorCall(c1), IntermediateExpression::IntermediateCtorCall(c2)) => {
                if c1.idx != c2.idx || !union_type_eq(&c1.type_, &c2.type_) {
                    return false;
                }
                match (&c1.data, &c2.data) {
                    (None, None) => true,
                    (Some(d1), Some(d2)) => self.assert_equal_value(d1, d2),
                    _ => false,
                }
            },
            (IntermediateExpression::IntermediateLambda(l1), IntermediateExpression::IntermediateLambda(l2)) => {
                if !self.assert_equal_args(&l1.args, &l2.args) {
                    return false;
                }
                self.assert_equal_block(&l1.block, &l2.block)
            },
            (IntermediateExpression::IntermediateIf(i1), IntermediateExpression::IntermediateIf(i2)) => {
                if !self.assert_equal_value(&i1.condition, &i2.condition) {
                    return false;
                }
                if !self.assert_equal_block(&i1.branches.0, &i2.branches.0) {
                    return false;
                }
                self.assert_equal_block(&i1.branches.1, &i2.branches.1)
            },
            (IntermediateExpression::IntermediateMatch(m1), IntermediateExpression::IntermediateMatch(m2)) => {
                proof {
                    lemma_match_view(*m1);
                    lemma_match_view(*m2);
                }
                if !self.assert_equal_value(&m1.subject, &m2.subject) {
                    return false;
                }
                self.assert_equal_branches(&m1.branches, &m2.branches)
            },
            _ => false,
        }
    }

    fn assert_equal_block(&mut self, b1: &IntermediateBlock, b2: &IntermediateBlock) -> (res: bool)
        ensures
            res == check_block(old(self)@, b1@, b2@) is Some,
            res ==> final(self)@ == check_block(old(self)@, b1@, b2@).unwrap(),
        decreases b1,
    {
        proof {
            lemma_block_view(*b1);
            lemma_block_view(*b2);
        }
        if !self.assert_equal_statements(&b1.statements, &b2.statements) {
            return false;
        }
        self.assert_equal_value(&b1.ret, &b2.ret)
    }

    fn assert_equal_statement(&mut self, s1: &IntermediateStatement, s2: &IntermediateStatement) -> (res: bool)
        ensures
            res == check_assignment(old(self)@, s1@, s2@) is Some,
            res ==> final(self)@ == check_assignment(old(self)@, s1@, s2@).unwrap(),
        decreases s1,
    {
        match (s1, s2) {
            (IntermediateStatement::IntermediateAssignment(m1), IntermediateStatement::IntermediateAssignment(m2)) =>
                self.assert_equal_assignment(m1, m2),
        }
    }

    #[verifier::rlimit(40)]
    fn assert_equal_statements(&mut self, statements1: &Vec<IntermediateStatement>, statements2: &Vec<IntermediateStatement>) -> (res: bool)
        ensures
            res == check_statements(old(self)@, statements_view(statements1@), statements_view(statements2@)) is Some,
            res ==> final(self)@ == check_statements(old(self)@, statements_view(statements1@), statements_view(statements2@)).unwrap(),
        decreases statements1,
    {
        let ghost s0 = self@;
        let ghost xs = statements_view(statements1@);
        let ghost ys = statements_view(statements2@);
        if statements1.len() != statements2.len() {
            return false;
        }
        let mut i: usize = 0;
        while i < statements1.len()
            invariant
                i <= statements1.len(),
                statements1.len() == statements2.len(),
                s0 == old(self)@,
                xs == statements_view(statements1@),
                ys == statements_view(statements2@),
                check_statements(s0, xs.take(i as int), ys.take(i as int)) == Some(self@),
            decreases statements1.len() - i,
        {
            proof {
                assert(xs.take(i + 1).drop_last() =~= xs.take(i as int));
                assert(ys.take(i + 1).drop_last() =~= ys.take(i as int));
            }
            let ghost before = self@;
            if !self.assert_equal_statement(&statements1[i], &statements2[i]) {
                proof {
                    assert(xs.take(i + 1).last() == xs[i as int]);
                    assert(ys.take(i + 1).last() == ys[i as int]);
                    lemma_check_statements_fails(s0, xs, ys, i + 1, statements1.len() as int);
                    assert(xs.take(statements1.len() as int) =~= xs);
                    assert(ys.take(statements1.len() as int) =~= ys);
                }
                return false;
            }
            i = i + 1;
        }
        proof {
            assert(xs.take(statements1.len() as int) =~= xs);
            assert(ys.take(statements1.len() as int) =~= ys);
        }
        true
    }

    fn assert_equal_branch(&mut self, branch1: &IntermediateMatchBranch, branch2: &IntermediateMatchBranch) -> (res: bool)
        ensures
            res == check_branch(old(self)@, branch1@, branch2@) is Some,
            res ==> final(self)@ == check_branch(old(self)@, branch1@, branch2@).unwrap(),
        decreases branch1,
    {
        let targets_equal = match (&branch1.target, &branch2.target) {
            (None, None) => true,
            (Some(a1), Some(a2)) => self.assert_equal_arg(a1, a2),
            _ => false,
        };
        if !targets_equal {
            return false;
        }
        self.assert_equal_block(&branch1.block, &branch2.block)
    }

    #[verifier::rlimit(40)]
    fn assert_equal_branches(&mut self, branches1: &Vec<IntermediateMatchBranch>, branches2: &Vec<IntermediateMatchBranch>) -> (res: bool)
        ensures
            res == check_branches(old(self)@, branches_view(branches1@), branches_view(branches2@)) is Some,
            res ==> final(self)@ == check_branches(old(self)@, branches_view(branches1@), branches_view(branches2@)).unwrap(),
        decreases branches1,
    {
        let ghost s0 = self@;
        let ghost xs = branches_view(branches1@);
        let ghost ys = branches_view(branches2@);
        if branches1.len() != branches2.len() {
            return false;
        }
        let mut i: usize = 0;
        while i < branches1.len()
            invariant
                i <= branches1.len(),
                branches1.len() == branches2.len(),
                s0 == old(self)@,
                xs == branches_view(branches1@),
                ys == branches_view(branches2@),
                check_branches(s0, xs.take(i as int), ys.take(i as int)) == Some(self@),
            decreases branches1.len() - i,
        {
            proof {
                assert(xs.take(i + 1).drop_last() =~= xs.take(i as int));
                assert(ys.take(i + 1).drop_last() =~= ys.take(i as int));
            }
            let ghost before = self@;
            if !self.assert_equal_branch(&branches1[i], &branches2[i]) {
                proof {
                    assert(xs.take(i + 1).last() == xs[i as int]);
                    assert(ys.take(i + 1).last() == ys[i as int]);
                    lemma_check_branches_fails(s0, xs, ys, i + 1, branches1.len() as int);
                    assert(xs.take(branches1.len() as int) =~= xs);
                    assert(ys.take(branches1.len() as int) =~= ys);
                }
                return false;
            }
            i = i + 1;
        }
        proof {
            assert(xs.take(branches1.len() as int) =~= xs);
            assert(ys.take(branches1.len() as int) =~= ys);
        }
        true
    }
}

/// Whether every pairing the checker holds pairs a location with itself.
pub open spec fn pairs_identical(s: CheckerModel) -> bool {
    &&& forall|k: usize| #[trigger] s.left.contains_key(k) ==> s.left[k] == k
    &&& forall|k: usize| #[trigger] s.right.contains_key(k) ==> s.right[k] == k
    &&& forall|k: usize| #[trigger] s.left.contains_key(k) <==> s.right.contains_key(k)
    &&& forall|k: usize| #[trigger] s.left_true.contains_key(k) ==> s.left_true[k] == k
    &&& forall|k: usize| #[trigger] s.right_true.contains_key(k) ==> s.right_true[k] == k
    &&& forall|k: usize| #[trigger] s.left_true.contains_key(k) <==> s.right_true.contains_key(k)
}

proof fn lemma_locations_reflexive(s: CheckerModel, l: usize)
    requires
        pairs_identical(s),
    ensures
        check_locations(s, l, l) is Some,
        pairs_identical(check_locations(s, l, l).unwrap()),
{
}

proof fn lemma_value_reflexive(s: CheckerModel, v: ValueModel)
    requires
        pairs_identical(s),
    ensures
        check_value(s, v, v) is Some,
        pairs_identical(check_value(s, v, v).unwrap()),
{
    match v {
        ValueModel::BuiltIn(_) => {},
        ValueModel::Memory(m) => lemma_locations_reflexive(s, m.location),
        ValueModel::Arg(a) => lemma_locations_reflexive(s, a.location),
    }
}

proof fn lemma_values_reflexive(s: CheckerModel, vs: Seq<ValueModel>)
    requires
        pairs_identical(s),
    ensures
        check_values(s, vs, vs) is Some,
        pairs_identical(check_values(s, vs, vs).unwrap()),
    decreases vs.len(),
{
    if vs.len() > 0 {
        lemma_values_reflexive(s, vs.drop_last());
        lemma_value_reflexive(check_values(s, vs.drop_last(), vs.drop_last()).unwrap(), vs.last());
    }
}

proof fn lemma_args_reflexive(s: CheckerModel, args: Seq<SlotModel>)
    requires
        pairs_identical(s),
    ensures
        check_args(s, args, args) is Some,
        pairs_identical(check_args(s, args, args).unwrap()),
    decreases args.len(),
{
    if args.len() > 0 {
        lemma_args_reflexive(s, args.drop_last());
        lemma_locations_reflexive(check_args(s, args.drop_last(), args.drop_last()).unwrap(), args.last().location);
    }
}

proof fn lemma_expression_reflexive(s: CheckerModel, e: ExpressionModel)
    requires
        pairs_identical(s),
    ensures
        check_expression(s, e, e) is Some,
        pairs_identical(check_expression(s, e, e).unwrap()),
    decreases e,
{
    match e {
        ExpressionModel::Value(v) => lemma_value_reflexive(s, v),
        ExpressionModel::ElementAccess(v, _) => lemma_value_reflexive(s, v),
        ExpressionModel::Tuple(vs) => lemma_values_reflexive(s, vs),
        ExpressionModel::FnCall(f, args) => {
            lemma_values_reflexive(s, args);
            lemma_value_reflexive(check_values(s, args, args).unwrap(), f);
        },
        ExpressionModel::CtorCall(_, d, _) => match d {
            None => {},
            Some(x) => lemma_value_reflexive(s, x),
        },
        ExpressionModel::Lambda(l) => {
            lemma_args_reflexive(s, l.args);
            lemma_block_reflexive(check_args(s, l.args, l.args).unwrap(), l.block);
        },
        ExpressionModel::If(c, t, f) => {
            lemma_value_reflexive(s, c);
            let s2 = check_value(s, c, c).unwrap();
            lemma_block_reflexive(s2, t);
            lemma_block_reflexive(check_block(s2, t, t).unwrap(), f);
        },
        ExpressionModel::Match(x, bs) => {
            lemma_value_reflexive(s, x);
            lemma_branches_reflexive(check_value(s, x, x).unwrap(), bs);
        },
    }
}

proof fn lemma_block_reflexive(s: CheckerModel, b: BlockModel)
    requires
        pairs_identical(s),
    ensures
        check_block(s, b, b) is Some,
        pairs_identical(check_block(s, b, b).unwrap()),
    decreases b,
{
    lemma_statements_reflexive(s, b.statements);
    lemma_value_reflexive(check_statements(s, b.statements, b.statements).unwrap(), b.ret);
}

proof fn lemma_statements_reflexive(s: CheckerModel, st: Seq<AssignmentModel>)
    requires
        pairs_identical(s),
    ensures
        check_statements(s, st, st) is Some,
        pairs_identical(check_statements(s, st, st).unwrap()),
    decreases st,
{
    if st.len() > 0 {
        lemma_statements_reflexive(s, st.drop_last());
        lemma_assignment_reflexive(check_statements(s, st.drop_last(), st.drop_last()).unwrap(), st.last());
    }
}

proof fn lemma_assignment_reflexive(s: CheckerModel, a: AssignmentModel)
    requires
        pairs_identical(s),
    ensures
        check_assignment(s, a, a) is Some,
        pairs_identical(check_assignment(s, a, a).unwrap()),
    decreases a,
{
    let l = a.location;
    if s.left_true.contains_key(l) && s.left_true[l] == l {
    } else if s.left.contains_key(l) && s.left[l] == l {
        let s2 = CheckerModel { left_true: s.left_true.insert(l, l), right_true: s.right_true.insert(l, l), ..s };
        lemma_expression_reflexive(s2, a.expression);
    } else {
        let s2 = CheckerModel {
            left_true: s.left_true.insert(l, l),
            right_true: s.right_true.insert(l, l),
            left: s.left.insert(l, l),
            right: s.right.insert(l, l),
        };
        lemma_expression_reflexive(s2, a.expression);
    }
}

proof fn lemma_branches_reflexive(s: CheckerModel, bs: Seq<BranchModel>)
    requires
        pairs_identical(s),
    ensures
        check_branches(s, bs, bs) is Some,
        pairs_identical(check_branches(s, bs, bs).unwrap()),
    decreases bs,
{
    if bs.len() > 0 {
        lemma_branches_reflexive(s, bs.drop_last());
        let s2 = check_branches(s, bs.drop_last(), bs.drop_last()).unwrap();
        let b = bs.last();
        match b.target {
            None => lemma_block_reflexive(s2, b.block),
            Some(t) => {
                lemma_locations_reflexive(s2, t.location);
                lemma_block_reflexive(check_locations(s2, t.location, t.location).unwrap(), b.block);
            },
        }
        assert(check_branches(s, bs, bs) == check_branch(s2, b, b));
    }
}

/// Every expression is equal to itself: the checker accepts an expression
/// compared with itself, and pairs each of its locations with itself.
pub proof fn law_expression_equality_reflexive(e: ExpressionModel)
    ensures
        check_expression(initial_checker(), e, e) is Some,
        pairs_identical(check_expression(initial_checker(), e, e).unwrap()),
{
    lemma_expression_reflexive(initial_checker(), e);
}

// ---------------------------------------------------------------------------
// Symmetry.

/// The checker's knowledge seen from the other side: the two expressions swapped.
pub open spec fn swap_sides(s: CheckerModel) -> CheckerModel {
    CheckerModel { left_true: s.right_true, right_true: s.left_true, left: s.right, right: s.left }
}

pub open spec fn swap_result(o: Option<CheckerModel>) -> Option<CheckerModel> {
    match o {
        None => None,
        Some(s) => Some(swap_sides(s)),
    }
}

/// Whether two maps are each other's inverse.
pub open spec fn inverse_maps(a: Map<usize, usize>, b: Map<usize, usize>) -> bool {
    &&& forall|x: usize| #[trigger] a.contains_key(x) ==> b.contains_key(a[x]) && b[a[x]] == x
    &&& forall|y: usize| #[trigger] b.contains_key(y) ==> a.contains_key(b[y]) && a[b[y]] == y
}

/// Whether the pairs the checker has learnt are one-to-one: each map from left
/// to right is the inverse of the one from right to left, and the targets
/// compared are among the pairs.
pub open spec fn pairs_one_to_one(s: CheckerModel) -> bool {
    &&& inverse_maps(s.left, s.right)
    &&& inverse_maps(s.left_true, s.right_true)
    &&& forall|x: usize| #[trigger] s.left_true.contains_key(x) ==> s.left.contains_key(x) && s.left[x] == s.left_true[x]
}

/// The result of a comparison that keeps the pairs one-to-one.
pub open spec fn keeps_one_to_one(o: Option<CheckerModel>) -> bool {
    o is Some ==> pairs_one_to_one(o.unwrap())
}

proof fn lemma_inverse_insert(a: Map<usize, usize>, b: Map<usize, usize>, x: usize, y: usize)
    requires
        inverse_maps(a, b),
        !a.contains_key(x),
        !b.contains_key(y),
    ensures
        inverse_maps(a.insert(x, y), b.insert(y, x)),
{
    let a2 = a.insert(x, y);
    let b2 = b.insert(y, x);
    assert forall|p: usize| #[trigger] a2.contains_key(p) implies b2.contains_key(a2[p]) && b2[a2[p]] == p by {
        if p != x {
            assert(b.contains_key(a[p]));
        }
    }
    assert forall|q: usize| #[trigger] b2.contains_key(q) implies a2.contains_key(b2[q]) && a2[b2[q]] == q by {
        if q != y {
            assert(a.contains_key(b[q]));
        }
    }
}

proof fn lemma_locations_symmetric(s: CheckerModel, l1: usize, l2: usize)
    requires
        pairs_one_to_one(s),
    ensures
        check_locations(swap_sides(s), l2, l1) == swap_result(check_locations(s, l1, l2)),
        keeps_one_to_one(check_locations(s, l1, l2)),
{
    if s.left.contains_key(l1) && s.left[l1] == l2 {
        assert(s.right.contains_key(l2) && s.right[l2] == l1);
    } else if s.left.contains_key(l1) || s.right.contains_key(l2) {
        if s.right.contains_key(l2) && s.right[l2] == l1 {
            assert(s.left.contains_key(l1) && s.left[l1] == l2);
        }
    } else {
        if s.right.contains_key(l2) && s.right[l2] == l1 {
            assert(s.left.contains_key(l1));
        }
        lemma_inverse_insert(s.left, s.right, l1, l2);
    }
}

proof fn lemma_value_symmetric(s: CheckerModel, v1: ValueModel, v2: ValueModel)
    requires
        pairs_one_to_one(s),
    ensures
        check_value(swap_sides(s), v2, v1) == swap_result(check_value(s, v1, v2)),
        keeps_one_to_one(check_value(s, v1, v2)),
{
    match (v1, v2) {
        (ValueModel::Arg(a1), ValueModel::Arg(a2)) => lemma_locations_symmetric(s, a1.location, a2.location),
        (ValueModel::Memory(m1), ValueModel::Memory(m2)) => lemma_locations_symmetric(s, m1.location, m2.location),
        _ => {},
    }
}

proof fn lemma_values_symmetric(s: CheckerModel, vs1: Seq<ValueModel>, vs2: Seq<ValueModel>)
    requires
        pairs_one_to_one(s),
    ensures
        check_values(swap_sides(s), vs2, vs1) == swap_result(check_values(s, vs1, vs2)),
        keeps_one_to_one(check_values(s, vs1, vs2)),
    decreases vs1.len(),
{
    if vs1.len() == vs2.len() && vs1.len() > 0 {
        lemma_values_symmetric(s, vs1.drop_last(), vs2.drop_last());
        match check_values(s, vs1.drop_last(), vs2.drop_last()) {
            None => {},
            Some(s2) => lemma_value_symmetric(s2, vs1.last(), vs2.last()),
        }
    }
}

proof fn lemma_args_symmetric(s: CheckerModel, as1: Seq<SlotModel>, as2: Seq<SlotModel>)
    requires
        pairs_one_to_one(s),
    ensures
        check_args(swap_sides(s), as2, as1) == swap_result(check_args(s, as1, as2)),
        keeps_one_to_one(check_args(s, as1, as2)),
    decreases as1.len(),
{
    if as1.len() == as2.len() && as1.len() > 0 {
        lemma_args_symmetric(s, as1.drop_last(), as2.drop_last());
        match check_args(s, as1.drop_last(), as2.drop_last()) {
            None => {},
            Some(s2) => lemma_locations_symmetric(s2, as1.last().location, as2.last().location),
        }
    }
}

proof fn lemma_expression_symmetric(s: CheckerModel, e1: ExpressionModel, e2: ExpressionModel)
    requires
        pairs_one_to_one(s),
    ensures
        check_expression(swap_sides(s), e2, e1) == swap_result(check_expression(s, e1, e2)),
        keeps_one_to_one(check_expression(s, e1, e2)),
    decreases e1,
{
    match (e1, e2) {
        (ExpressionModel::Value(v1), ExpressionModel::Value(v2)) => lemma_value_symmetric(s, v1, v2),
        (ExpressionModel::ElementAccess(v1, _), ExpressionModel::ElementAccess(v2, _)) => lemma_value_symmetric(s, v1, v2),
        (ExpressionModel::Tuple(vs1), ExpressionModel::Tuple(vs2)) => lemma_values_symmetric(s, vs1, vs2),
        (ExpressionModel::FnCall(f1, a1), ExpressionModel::FnCall(f2, a2)) => {
            lemma_values_symmetric(s, a1, a2);
            match check_values(s, a1, a2) {
                None => {},
                Some(s2) => lemma_value_symmetric(s2, f1, f2),
            }
        },
        (ExpressionModel::CtorCall(_, d1, _), ExpressionModel::CtorCall(_, d2, _)) => match (d1, d2) {
            (Some(x1), Some(x2)) => lemma_value_symmetric(s, x1, x2),
            _ => {},
        },
        (ExpressionModel::Lambda(l1), ExpressionModel::Lambda(l2)) => {
            lemma_args_symmetric(s, l1.args, l2.args);
            match check_args(s, l1.args, l2.args) {
                None => {},
                Some(s2) => lemma_block_symmetric(s2, l1.block, l2.block),
            }
        },
        (ExpressionModel::If(c1, t1, f1), ExpressionModel::If(c2, t2, f2)) => {
            lemma_value_symmetric(s, c1, c2);
            match check_value(s, c1, c2) {
                None => {},
                Some(s2) => {
                    lemma_block_symmetric(s2, t1, t2);
                    match check_block(s2, t1, t2) {
                        None => {},
                        Some(s3) => lemma_block_symmetric(s3, f1, f2),
                    }
                },
            }
        },
        (ExpressionModel::Match(x1, b1), ExpressionModel::Match(x2, b2)) => {
            lemma_value_symmetric(s, x1, x2);
            match check_value(s, x1, x2) {
                None => {},
                Some(s2) => lemma_branches_symmetric(s2, b1, b2),
            }
        },
        _ => {},
    }
}

proof fn lemma_block_symmetric(s: CheckerModel, b1: BlockModel, b2: BlockModel)
    requires
        pairs_one_to_one(s),
    ensures
        check_block(swap_sides(s), b2, b1) == swap_result(check_block(s, b1, b2)),
        keeps_one_to_one(check_block(s, b1, b2)),
    decreases b1,
{
    lemma_statements_symmetric(s, b1.statements, b2.statements);
    match check_statements(s, b1.statements, b2.statements) {
        None => {},
        Some(s2) => lemma_value_symmetric(s2, b1.ret, b2.ret),
    }
}

proof fn lemma_statements_symmetric(s: CheckerModel, st1: Seq<AssignmentModel>, st2: Seq<AssignmentModel>)
    requires
        pairs_one_to_one(s),
    ensures
        check_statements(swap_sides(s), st2, st1) == swap_result(check_statements(s, st1, st2)),
        keeps_one_to_one(check_statements(s, st1, st2)),
    decreases st1,
{
    if st1.len() == st2.len() && st1.len() > 0 {
        lemma_statements_symmetric(s, st1.drop_last(), st2.drop_last());
        match check_statements(s, st1.drop_last(), st2.drop_last()) {
            None => {},
            Some(s2) => lemma_assignment_symmetric(s2, st1.last(), st2.last()),
        }
    }
}

proof fn lemma_assignment_symmetric(s: CheckerModel, a1: AssignmentModel, a2: AssignmentModel)
    requires
        pairs_one_to_one(s),
    ensures
        check_assignment(swap_sides(s), a2, a1) == swap_result(check_assignment(s, a1, a2)),
        keeps_one_to_one(check_assignment(s, a1, a2)),
    decreases a1,
{
    let (l1, l2) = (a1.location, a2.location);
    let w = swap_sides(s);
    if s.left_true.contains_key(l1) && s.left_true[l1] == l2 {
        assert(s.right_true.contains_key(l2) && s.right_true[l2] == l1);
    } else {
        if s.right_true.contains_key(l2) && s.right_true[l2] == l1 {
            assert(s.left_true.contains_key(l1) && s.left_true[l1] == l2);
        }
        if s.left.contains_key(l1) && s.left[l1] == l2 {
            assert(s.right.contains_key(l2) && s.right[l2] == l1);
            let s2 = CheckerModel { left_true: s.left_true.insert(l1, l2), right_true: s.right_true.insert(l2, l1), ..s };
            lemma_inverse_insert(s.left_true, s.right_true, l1, l2);
            lemma_expression_symmetric(s2, a1.expression, a2.expression);
            assert(swap_sides(s2) == CheckerModel { left_true: w.left_true.insert(l2, l1), right_true: w.right_true.insert(l1, l2), ..w });
        } else {
            if s.right.contains_key(l2) && s.right[l2] == l1 {
                assert(s.left.contains_key(l1) && s.left[l1] == l2);
            }
            if !(s.left_true.contains_key(l1) || s.right_true.contains_key(l2) || s.left.contains_key(l1) || s.right.contains_key(l2)) {
                let s2 = CheckerModel {
                    left_true: s.left_true.insert(l1, l2),
                    right_true: s.right_true.insert(l2, l1),
                    left: s.left.insert(l1, l2),
                    right: s.right.insert(l2, l1),
                };
                lemma_inverse_insert(s.left_true, s.right_true, l1, l2);
                lemma_inverse_insert(s.left, s.right, l1, l2);
                lemma_expression_symmetric(s2, a1.expression, a2.expression);
                assert(swap_sides(s2) == CheckerModel {
                    left_true: w.left_true.insert(l2, l1),
                    right_true: w.right_true.insert(l1, l2),
                    left: w.left.insert(l2, l1),
                    right: w.right.insert(l1, l2),
                });
            }
        }
    }
}

proof fn lemma_branch_symmetric(s: CheckerModel, b1: BranchModel, b2: BranchModel)
    requires
        pairs_one_to_one(s),
    ensures
        check_branch(swap_sides(s), b2, b1) == swap_result(check_branch(s, b1, b2)),
        keeps_one_to_one(check_branch(s, b1, b2)),
    decreases b1,
{
    match (b1.target, b2.target) {
        (None, None) => lemma_block_symmetric(s, b1.block, b2.block),
        (Some(t1), Some(t2)) => {
            lemma_locations_symmetric(s, t1.location, t2.location);
            match check_locations(s, t1.location, t2.location) {
                None => {},
                Some(s2) => lemma_block_symmetric(s2, b1.block, b2.block),
            }
        },
        _ => {},
    }
}

proof fn lemma_branches_symmetric(s: CheckerModel, bs1: Seq<BranchModel>, bs2: Seq<BranchModel>)
    requires
        pairs_one_to_one(s),
    ensures
        check_branches(swap_sides(s), bs2, bs1) == swap_result(check_branches(s, bs1, bs2)),
        keeps_one_to_one(check_branches(s, bs1, bs2)),
    decreases bs1,
{
    if bs1.len() == bs2.len() && bs1.len() > 0 {
        lemma_branches_symmetric(s, bs1.drop_last(), bs2.drop_last());
        match check_branches(s, bs1.drop_last(), bs2.drop_last()) {
            None => {},
            Some(s2) => lemma_branch_symmetric(s2, bs1.last(), bs2.last()),
        }
    }
}

/// Equality of expressions does not depend on their order: the checker accepts
/// two expressions exactly when it accepts them the other way round.
pub proof fn law_expression_equality_symmetric(e1: ExpressionModel, e2: ExpressionModel)
    ensures
        check_expression(initial_checker(), e1, e2) is Some <==> check_expression(initial_checker(), e2, e1) is Some,
{
    assert(swap_sides(initial_checker()) == initial_checker());
    lemma_expression_symmetric(initial_checker(), e1, e2);
}

// ---------------------------------------------------------------------------
// Renaming.

/// A slot moved to another location.
pub open spec fn rename_slot(f: spec_fn(usize) -> usize, x: SlotModel) -> SlotModel {
    SlotModel { type_: x.type_, location: f(x.location) }
}

pub open spec fn rename_value(f: spec_fn(usize) -> usize, v: ValueModel) -> ValueModel {
    match v {
        ValueModel::BuiltIn(b) => ValueModel::BuiltIn(b),
        ValueModel::Memory(x) => ValueModel::Memory(rename_slot(f, x)),
        ValueModel::Arg(x) => ValueModel::Arg(rename_slot(f, x)),
    }
}

pub open spec fn rename_values(f: spec_fn(usize) -> usize, vs: Seq<ValueModel>) -> Seq<ValueModel> {
    vs.map_values(|v: ValueModel| rename_value(f, v))
}

/// An expression with every location it names, as a value, an argument, an
/// assignment or a branch target, moved by `f`.
pub open spec fn rename_expression(f: spec_fn(usize) -> usize, e: ExpressionModel) -> ExpressionModel
    decreases e,
{
    match e {
        ExpressionModel::Value(v) => ExpressionModel::Value(rename_value(f, v)),
        ExpressionModel::ElementAccess(v, i) => ExpressionModel::ElementAccess(rename_value(f, v), i),
        ExpressionModel::Tuple(vs) => ExpressionModel::Tuple(rename_values(f, vs)),
        ExpressionModel::FnCall(g, args) => ExpressionModel::FnCall(rename_value(f, g), rename_values(f, args)),
        ExpressionModel::CtorCall(i, d, t) => ExpressionModel::CtorCall(i, match d {
            None => None,
            Some(v) => Some(rename_value(f, v)),
        }, t),
        ExpressionModel::Lambda(l) => ExpressionModel::Lambda(crate::ir_model::LambdaModel {
            args: l.args.map_values(|x: SlotModel| rename_slot(f, x)),
            block: rename_block(f, l.block),
        }),
        ExpressionModel::If(c, t, g) => ExpressionModel::If(rename_value(f, c), rename_block(f, t), rename_block(f, g)),
        ExpressionModel::Match(x, bs) => ExpressionModel::Match(rename_value(f, x), Seq::new(bs.len(), |i: int|
            if 0 <= i < bs.len() {
                BranchModel {
                    target: match bs[i].target {
                        None => None,
                        Some(t) => Some(rename_slot(f, t)),
                    },
                    block: rename_block(f, bs[i].block),
                }
            } else {
                bs[i]
            })),
    }
}

pub open spec fn rename_block(f: spec_fn(usize) -> usize, b: BlockModel) -> BlockModel
    decreases b,
{
    BlockModel { statements: rename_statements(f, b.statements), ret: rename_value(f, b.ret) }
}

pub open spec fn rename_statements(f: spec_fn(usize) -> usize, st: Seq<AssignmentModel>) -> Seq<AssignmentModel>
    decreases st,
{
    Seq::new(st.len(), |i: int| if 0 <= i < st.len() {
        AssignmentModel { expression: rename_expression(f, st[i].expression), location: f(st[i].location) }
    } else {
        st[i]
    })
}

pub open spec fn injective(f: spec_fn(usize) -> usize) -> bool {
    forall|a: usize, b: usize| #[trigger] f(a) == #[trigger] f(b) ==> a == b
}

/// Whether every pair the checker holds is a location and its image under `f`.
pub open spec fn pairs_follow(s: CheckerModel, f: spec_fn(usize) -> usize) -> bool {
    &&& forall|k: usize| #[trigger] s.left.contains_key(k) ==> s.left[k] == f(k)
    &&& forall|k: usize| #[trigger] s.right.contains_key(k) ==> s.left.contains_key(s.right[k]) && f(s.right[k]) == k
    &&& forall|k: usize| #[trigger] s.left_true.contains_key(k) ==> s.left_true[k] == f(k)
    &&& forall|k: usize| #[trigger] s.right_true.contains_key(k) ==> s.left_true.contains_key(s.right_true[k]) && f(s.right_true[k]) == k
}

proof fn lemma_locations_renamed(s: CheckerModel, f: spec_fn(usize) -> usize, l: usize)
    requires
        injective(f),
        pairs_follow(s, f),
    ensures
        check_locations(s, l, f(l)) is Some,
        pairs_follow(check_locations(s, l, f(l)).unwrap(), f),
{
    if s.right.contains_key(f(l)) {
        assert(f(s.right[f(l)]) == f(l));
    }
}

proof fn lemma_value_renamed(s: CheckerModel, f: spec_fn(usize) -> usize, v: ValueModel)
    requires
        injective(f),
        pairs_follow(s, f),
    ensures
        check_value(s, v, rename_value(f, v)) is Some,
        pairs_follow(check_value(s, v, rename_value(f, v)).unwrap(), f),
{
    match v {
        ValueModel::BuiltIn(_) => {},
        ValueModel::Memory(m) => lemma_locations_renamed(s, f, m.location),
        ValueModel::Arg(a) => lemma_locations_renamed(s, f, a.location),
    }
}

proof fn lemma_values_renamed(s: CheckerModel, f: spec_fn(usize) -> usize, vs: Seq<ValueModel>)
    requires
        injective(f),
        pairs_follow(s, f),
    ensures
        check_values(s, vs, rename_values(f, vs)) is Some,
        pairs_follow(check_values(s, vs, rename_values(f, vs)).unwrap(), f),
    decreases vs.len(),
{
    if vs.len() > 0 {
        lemma_values_renamed(s, f, vs.drop_last());
        assert(rename_values(f, vs).drop_last() =~= rename_values(f, vs.drop_last()));
        lemma_value_renamed(check_values(s, vs.drop_last(), rename_values(f, vs.drop_last())).unwrap(), f, vs.last());
    }
}

proof fn lemma_args_renamed(s: CheckerModel, f: spec_fn(usize) -> usize, args: Seq<SlotModel>)
    requires
        injective(f),
        pairs_follow(s, f),
    ensures
        check_args(s, args, args.map_values(|x: SlotModel| rename_slot(f, x))) is Some,
        pairs_follow(check_args(s, args, args.map_values(|x: SlotModel| rename_slot(f, x))).unwrap(), f),
    decreases args.len(),
{
    if args.len() > 0 {
        lemma_args_renamed(s, f, args.drop_last());
        let r = args.map_values(|x: SlotModel| rename_slot(f, x));
        assert(r.drop_last() =~= args.drop_last().map_values(|x: SlotModel| rename_slot(f, x)));
        lemma_locations_renamed(check_args(s, args.drop_last(), r.drop_last()).unwrap(), f, args.last().location);
    }
}

proof fn lemma_expression_renamed(s: CheckerModel, f: spec_fn(usize) -> usize, e: ExpressionModel)
    requires
        injective(f),
        pairs_follow(s, f),
    ensures
        check_expression(s, e, rename_expression(f, e)) is Some,
        pairs_follow(check_expression(s, e, rename_expression(f, e)).unwrap(), f),
    decreases e,
{
    match e {
        ExpressionModel::Value(v) => lemma_value_renamed(s, f, v),
        ExpressionModel::ElementAccess(v, _) => lemma_value_renamed(s, f, v),
        ExpressionModel::Tuple(vs) => lemma_values_renamed(s, f, vs),
        ExpressionModel::FnCall(g, args) => {
            lemma_values_renamed(s, f, args);
            lemma_value_renamed(check_values(s, args, rename_values(f, args)).unwrap(), f, g);
        },
        ExpressionModel::CtorCall(_, d, _) => match d {
            None => {},
            Some(x) => lemma_value_renamed(s, f, x),
        },
        ExpressionModel::Lambda(l) => {
            lemma_args_renamed(s, f, l.args);
            lemma_block_renamed(check_args(s, l.args, l.args.map_values(|x: SlotModel| rename_slot(f, x))).unwrap(), f, l.block);
        },
        ExpressionModel::If(c, t, g) => {
            lemma_value_renamed(s, f, c);
            let s2 = check_value(s, c, rename_value(f, c)).unwrap();
            lemma_block_renamed(s2, f, t);
            lemma_block_renamed(check_block(s2, t, rename_block(f, t)).unwrap(), f, g);
        },
        ExpressionModel::Match(x, bs) => {
            lemma_value_renamed(s, f, x);
            let r = rename_expression(f, e);
            lemma_branches_renamed(check_value(s, x, rename_value(f, x)).unwrap(), f, bs, r->Match_1);
        },
    }
}

proof fn lemma_block_renamed(s: CheckerModel, f: spec_fn(usize) -> usize, b: BlockModel)
    requires
        injective(f),
        pairs_follow(s, f),
    ensures
        check_block(s, b, rename_block(f, b)) is Some,
        pairs_follow(check_block(s, b, rename_block(f, b)).unwrap(), f),
    decreases b,
{
    lemma_statements_renamed(s, f, b.statements);
    lemma_value_renamed(check_statements(s, b.statements, rename_statements(f, b.statements)).unwrap(), f, b.ret);
}

proof fn lemma_statements_renamed(s: CheckerModel, f: spec_fn(usize) -> usize, st: Seq<AssignmentModel>)
    requires
        injective(f),
        pairs_follow(s, f),
    ensures
        check_statements(s, st, rename_statements(f, st)) is Some,
        pairs_follow(check_statements(s, st, rename_statements(f, st)).unwrap(), f),
    decreases st,
{
    if st.len() > 0 {
        lemma_statements_renamed(s, f, st.drop_last());
        let r = rename_statements(f, st);
        assert(r.drop_last() =~= rename_statements(f, st.drop_last()));
        assert(st.last() == st[st.len() - 1]);
        lemma_assignment_renamed(check_statements(s, st.drop_last(), r.drop_last()).unwrap(), f, st.last());
        assert(r.last() == AssignmentModel { expression: rename_expression(f, st.last().expression), location: f(st.last().location) });
    }
}

proof fn lemma_assignment_renamed(s: CheckerModel, f: spec_fn(usize) -> usize, a: AssignmentModel)
    requires
        injective(f),
        pairs_follow(s, f),
    ensures
        check_assignment(s, a, AssignmentModel { expression: rename_expression(f, a.expression), location: f(a.location) }) is Some,
        pairs_follow(check_assignment(s, a, AssignmentModel { expression: rename_expression(f, a.expression), location: f(a.location) }).unwrap(), f),
    decreases a,
{
    let (l1, l2) = (a.location, f(a.location));
    if s.right_true.contains_key(l2) {
        assert(f(s.right_true[l2]) == l2);
    }
    if s.right.contains_key(l2) {
        assert(f(s.right[l2]) == l2);
    }
    if s.left_true.contains_key(l1) && s.left_true[l1] == l2 {
    } else if s.left.contains_key(l1) && s.left[l1] == l2 {
        let s2 = CheckerModel { left_true: s.left_true.insert(l1, l2), right_true: s.right_true.insert(l2, l1), ..s };
        lemma_expression_renamed(s2, f, a.expression);
    } else {
        let s2 = CheckerModel {
            left_true: s.left_true.insert(l1, l2),
            right_true: s.right_true.insert(l2, l1),
            left: s.left.insert(l1, l2),
            right: s.right.insert(l2, l1),
        };
        lemma_expression_renamed(s2, f, a.expression);
    }
}

proof fn lemma_branches_renamed(s: CheckerModel, f: spec_fn(usize) -> usize, bs: Seq<BranchModel>, rs: Seq<BranchModel>)
    requires
        injective(f),
        pairs_follow(s, f),
        rs.len() == bs.len(),
        forall|i: int| 0 <= i < bs.len() ==> #[trigger] rs[i] == (BranchModel {
            target: match bs[i].target {
                None => None,
                Some(t) => Some(rename_slot(f, t)),
            },
            block: rename_block(f, bs[i].block),
        }),
    ensures
        check_branches(s, bs, rs) is Some,
        pairs_follow(check_branches(s, bs, rs).unwrap(), f),
    decreases bs,
{
    if bs.len() > 0 {
        lemma_branches_renamed(s, f, bs.drop_last(), rs.drop_last());
        let s2 = check_branches(s, bs.drop_last(), rs.drop_last()).unwrap();
        let b = bs.last();
        assert(rs.last() == rs[rs.len() - 1]);
        assert(b == bs[bs.len() - 1]);
        match b.target {
            None => lemma_block_renamed(s2, f, b.block),
            Some(t) => {
                lemma_locations_renamed(s2, f, t.location);
                lemma_block_renamed(check_locations(s2, t.location, f(t.location)).unwrap(), f, b.block);
            },
        }
        assert(check_branches(s, bs, rs) == check_branch(s2, b, rs.last()));
    }
}

/// An expression is equal to any renaming of its locations that keeps
/// different locations apart: the checker accepts the two, pairing each
/// location with its new one.
pub proof fn law_expression_equal_to_renaming(f: spec_fn(usize) -> usize, e: ExpressionModel)
    requires
        injective(f),
    ensures
        check_expression(initial_checker(), e, rename_expression(f, e)) is Some,
        pairs_follow(check_expression(initial_checker(), e, rename_expression(f, e)).unwrap(), f),
{
    lemma_expression_renamed(initial_checker(), f, e);
}


// ---------------------------------------------------------------------------
// What an accepted comparison guarantees.

/// Whether two values can denote the same value under a renaming of
/// locations: equal built-ins, or slots of the same kind.
pub open spec fn same_value_kind(v1: ValueModel, v2: ValueModel) -> bool {
    match (v1, v2) {
        (ValueModel::BuiltIn(b1), ValueModel::BuiltIn(b2)) => b1 == b2,
        (ValueModel::Arg(_), ValueModel::Arg(_)) => true,
        (ValueModel::Memory(_), ValueModel::Memory(_)) => true,
        _ => false,
    }
}

/// The location a value names, if it names one.
pub open spec fn named_location(v: ValueModel) -> Option<usize> {
    match v {
        ValueModel::Arg(a) => Some(a.location),
        ValueModel::Memory(m) => Some(m.location),
        _ => None,
    }
}

/// Whether the values of two lists pairwise can denote the same values.
pub open spec fn same_value_kinds(vs1: Seq<ValueModel>, vs2: Seq<ValueModel>) -> bool {
    vs1.len() == vs2.len() && forall|j: int| 0 <= j < vs1.len() ==> #[trigger] same_value_kind(vs1[j], vs2[j])
}

/// Whether two blocks have as many statements and returned values that can
/// denote the same value.
pub open spec fn same_block_outline(b1: BlockModel, b2: BlockModel) -> bool {
    b1.statements.len() == b2.statements.len() && same_value_kind(b1.ret, b2.ret)
}

/// Whether two expressions agree on everything but the locations they name:
/// the same variant, the same indices, variants and lengths, and values that
/// can denote the same values.
pub open spec fn same_outline(e1: ExpressionModel, e2: ExpressionModel) -> bool {
    match (e1, e2) {
        (ExpressionModel::Value(v1), ExpressionModel::Value(v2)) => same_value_kind(v1, v2),
        (ExpressionModel::ElementAccess(v1, i1), ExpressionModel::ElementAccess(v2, i2)) =>
            i1 == i2 && same_value_kind(v1, v2),
        (ExpressionModel::Tuple(vs1), ExpressionModel::Tuple(vs2)) => same_value_kinds(vs1, vs2),
        (ExpressionModel::FnCall(f1, a1), ExpressionModel::FnCall(f2, a2)) =>
            same_value_kind(f1, f2) && same_value_kinds(a1, a2),
        (ExpressionModel::CtorCall(i1, d1, t1), ExpressionModel::CtorCall(i2, d2, t2)) =>
            i1 == i2 && t1 == t2 && (d1 is Some) == (d2 is Some) && (d1 is Some ==> same_value_kind(d1->0, d2->0)),
        (ExpressionModel::Lambda(l1), ExpressionModel::Lambda(l2)) =>
            l1.args.len() == l2.args.len() && same_block_outline(l1.block, l2.block),
        (ExpressionModel::If(c1, t1, f1), ExpressionModel::If(c2, t2, f2)) =>
            same_value_kind(c1, c2) && same_block_outline(t1, t2) && same_block_outline(f1, f2),
        (ExpressionModel::Match(x1, b1), ExpressionModel::Match(x2, b2)) =>
            same_value_kind(x1, x2) && b1.len() == b2.len(),
        _ => false,
    }
}

/// Values compared as equal are of the same kind, and the locations they
/// name are paired from then on.
pub proof fn law_equal_values_pair_locations(s: CheckerModel, v1: ValueModel, v2: ValueModel)
    requires
        check_value(s, v1, v2) is Some,
    ensures
        same_value_kind(v1, v2),
        named_location(v1) is Some ==> check_value(s, v1, v2).unwrap().left.contains_key(named_location(v1)->0)
            && check_value(s, v1, v2).unwrap().left[named_location(v1)->0] == named_location(v2)->0,
        check_value(s, v1, v2).unwrap().left_true == s.left_true,
{
}

proof fn lemma_values_outline(s: CheckerModel, vs1: Seq<ValueModel>, vs2: Seq<ValueModel>)
    requires
        check_values(s, vs1, vs2) is Some,
    ensures
        same_value_kinds(vs1, vs2),
    decreases vs1.len(),
{
    if vs1.len() > 0 {
        let s2 = check_values(s, vs1.drop_last(), vs2.drop_last());
        lemma_values_outline(s, vs1.drop_last(), vs2.drop_last());
        law_equal_values_pair_locations(s2.unwrap(), vs1.last(), vs2.last());
        assert forall|j: int| 0 <= j < vs1.len() implies #[trigger] same_value_kind(vs1[j], vs2[j]) by {
            if j < vs1.len() - 1 {
                assert(vs1.drop_last()[j] == vs1[j]);
                assert(vs2.drop_last()[j] == vs2[j]);
            }
        }
    }
}

proof fn lemma_block_outline(s: CheckerModel, b1: BlockModel, b2: BlockModel)
    requires
        check_block(s, b1, b2) is Some,
    ensures
        same_block_outline(b1, b2),
{
    let s2 = check_statements(s, b1.statements, b2.statements);
    law_equal_values_pair_locations(s2.unwrap(), b1.ret, b2.ret);
}

/// Expressions the checker accepts agree on everything but their locations:
/// the same variant, the same element and constructor indices, the same
/// union variants, as many values, arguments, statements and branches, and
/// values of the same kinds. In particular two accesses of different
/// elements of a tuple are never equal.
pub proof fn law_equal_expressions_share_outline(s: CheckerModel, e1: ExpressionModel, e2: ExpressionModel)
    requires
        check_expression(s, e1, e2) is Some,
    ensures
        same_outline(e1, e2),
{
    match (e1, e2) {
        (ExpressionModel::Value(v1), ExpressionModel::Value(v2)) => law_equal_values_pair_locations(s, v1, v2),
        (ExpressionModel::ElementAccess(v1, _), ExpressionModel::ElementAccess(v2, _)) =>
            law_equal_values_pair_locations(s, v1, v2),
        (ExpressionModel::Tuple(vs1), ExpressionModel::Tuple(vs2)) => lemma_values_outline(s, vs1, vs2),
        (ExpressionModel::FnCall(f1, a1), ExpressionModel::FnCall(f2, a2)) => {
            lemma_values_outline(s, a1, a2);
            law_equal_values_pair_locations(check_values(s, a1, a2).unwrap(), f1, f2);
        },
        (ExpressionModel::CtorCall(_, d1, _), ExpressionModel::CtorCall(_, d2, _)) => {
            if d1 is Some && d2 is Some {
                law_equal_values_pair_locations(s, d1->0, d2->0);
            }
        },
        (ExpressionModel::Lambda(l1), ExpressionModel::Lambda(l2)) => {
            lemma_block_outline(check_args(s, l1.args, l2.args).unwrap(), l1.block, l2.block);
        },
        (ExpressionModel::If(c1, t1, f1), ExpressionModel::If(c2, t2, f2)) => {
            law_equal_values_pair_locations(s, c1, c2);
            let s2 = check_value(s, c1, c2).unwrap();
            lemma_block_outline(s2, t1, t2);
            lemma_block_outline(check_block(s2, t1, t2).unwrap(), f1, f2);
        },
        (ExpressionModel::Match(x1, _), ExpressionModel::Match(x2, _)) => law_equal_values_pair_locations(s, x1, x2),
        _ => {},
    }
}

} // verus!
