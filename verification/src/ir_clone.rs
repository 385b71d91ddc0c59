//! Copies of intermediate nodes that keep their meaning.

use vstd::prelude::*;
use crate::intermediate::{
    branches_view, lemma_block_view, lemma_match_view, option_value_view, statements_view,
    IntermediateAssignment, IntermediateBlock, IntermediateCtorCall, IntermediateElementAccess,
    IntermediateExpression, IntermediateFnCall, IntermediateIf, IntermediateLambda, IntermediateMatch,
    IntermediateMatchBranch, IntermediateStatement, IntermediateTupleExpression,
    lemma_fn_type_view, lemma_tuple_type_view, lemma_union_type_view,
    args_view, option_type_view, types_view, values_view, variants_view, AtomicType, BuiltInFn,
    IntermediateArg, IntermediateBuiltIn, IntermediateFnType, IntermediateMemory,
    IntermediateTupleType, IntermediateType, IntermediateUnionType, IntermediateValue,
};

verus! {

impl Clone for IntermediateType {
    fn clone(&self) -> (res: Self)
        ensures
            res@ == self@,
        decreases self,
    {
        match self {
            IntermediateType::AtomicType(AtomicType(a)) => IntermediateType::AtomicType(AtomicType(*a)),
            IntermediateType::IntermediateTupleType(IntermediateTupleType(ts)) => {
                let cts = clone_types(ts);
                proof {
                    lemma_tuple_type_view(*ts);
                    lemma_tuple_type_view(cts);
                }
                let res = IntermediateType::IntermediateTupleType(IntermediateTupleType(cts));
                proof {
                    assert(res@ == self@);
                }
                res
            },
            IntermediateType::IntermediateFnType(IntermediateFnType(args, ret)) => {
                let r: IntermediateType = (**ret).clone();
                let cargs = clone_types(args);
                proof {
                    lemma_fn_type_view(*args, *ret);
                    lemma_fn_type_view(cargs, Box::new(r));
                }
                let res = IntermediateType::IntermediateFnType(IntermediateFnType(cargs, Box::new(r)));
                proof {
                    assert(res@ == self@);
                }
                res
            },
            IntermediateType::IntermediateUnionType(IntermediateUnionType(vs)) => {
                let cvs = clone_variants(vs);
                proof {
                    lemma_union_type_view(*vs);
                    lemma_union_type_view(cvs);
                }
                let res = IntermediateType::IntermediateUnionType(IntermediateUnionType(cvs));
                proof {
                    assert(res@ == self@);
                }
                res
            },
            IntermediateType::Reference(i) => IntermediateType::Reference(*i),
        }
    }
}

/// Copies a sequence of types.
pub fn clone_types(ts: &Vec<IntermediateType>) -> (res: Vec<IntermediateType>)
    ensures
        types_view(res@) == types_view(ts@),
    decreases ts,
{
    let mut out: Vec<IntermediateType> = Vec::new();
    let mut i: usize = 0;
    while i < ts.len()
        invariant
            i <= ts.len(),
            types_view(out@) == types_view(ts@.take(i as int)),
        decreases ts.len() - i,
    {
        let t = ts[i].clone();
        out.push(t);
        proof {
            assert(types_view(ts@.take(i + 1)) == types_view(ts@.take(i as int)).push(ts@[i as int]@));
        }
        i = i + 1;
    }
    proof {
        assert(ts@.take(ts.len() as int) == ts@);
    }
    out
}

/// Copies the variants of a union type.
pub fn clone_variants(vs: &Vec<Option<IntermediateType>>) -> (res: Vec<Option<IntermediateType>>)
    ensures
        variants_view(res@) == variants_view(vs@),
    decreases vs,
{
    let mut out: Vec<Option<IntermediateType>> = Vec::new();
    let mut i: usize = 0;
    while i < vs.len()
        invariant
            i <= vs.len(),
            variants_view(out@) == variants_view(vs@.take(i as int)),
        decreases vs.len() - i,
    {
        let o = match &vs[i] {
            None => None,
            Some(t) => {
                proof {
                    assert(decreases_to!(vs => vs@[i as int]));
                }
                Some(t.clone())
            },
        };
        out.push(o);
        proof {
            assert(variants_view(vs@.take(i + 1)) == variants_view(vs@.take(i as int)).push(option_type_view(vs@[i as int])));
        }
        i = i + 1;
    }
    proof {
        assert(vs@.take(vs.len() as int) == vs@);
    }
    out
}

impl Clone for IntermediateFnType {
    fn clone(&self) -> (res: Self)
        ensures
            res@ == self@,
    {
        let args = clone_types(&self.0);
        let ret: IntermediateType = (*self.1).clone();
        proof {
            lemma_fn_type_view(self.0, self.1);
            lemma_fn_type_view(args, Box::new(ret));
        }
        IntermediateFnType(args, Box::new(ret))
    }
}

impl Clone for IntermediateUnionType {
    fn clone(&self) -> (res: Self)
        ensures
            res@ == self@,
    {
        IntermediateUnionType(clone_variants(&self.0))
    }
}

impl Clone for BuiltInFn {
    fn clone(&self) -> (res: Self)
        ensures
            res.0@ == self.0@,
            res.1@ == self.1@,
    {
        BuiltInFn(self.0.clone(), self.1.clone())
    }
}

impl Clone for IntermediateBuiltIn {
    fn clone(&self) -> (res: Self)
        ensures
            res@ == self@,
    {
        match self {
            IntermediateBuiltIn::Integer(i) => IntermediateBuiltIn::Integer(*i),
            IntermediateBuiltIn::Boolean(b) => IntermediateBuiltIn::Boolean(*b),
            IntermediateBuiltIn::BuiltInFn(f) => {
                let g = f.clone();
                proof {
                    lemma_fn_type_view(f.1.0, f.1.1);
                    lemma_fn_type_view(g.1.0, g.1.1);
                }
                IntermediateBuiltIn::BuiltInFn(g)
            },
        }
    }
}

impl Clone for IntermediateMemory {
    fn clone(&self) -> (res: Self)
        ensures
            res@ == self@,
    {
        IntermediateMemory { type_: self.type_.clone(), location: self.location }
    }
}

impl Clone for IntermediateArg {
    fn clone(&self) -> (res: Self)
        ensures
            res@ == self@,
    {
        IntermediateArg { type_: self.type_.clone(), location: self.location }
    }
}

impl Clone for IntermediateValue {
    fn clone(&self) -> (res: Self)
        ensures
            res@ == self@,
    {
        match self {
            IntermediateValue::IntermediateBuiltIn(b) => IntermediateValue::IntermediateBuiltIn(b.clone()),
            IntermediateValue::IntermediateMemory(m) => IntermediateValue::IntermediateMemory(m.clone()),
            IntermediateValue::IntermediateArg(a) => IntermediateValue::IntermediateArg(a.clone()),
        }
    }
}

/// Copies a sequence of values.
pub fn clone_values(vs: &Vec<IntermediateValue>) -> (res: Vec<IntermediateValue>)
    ensures
        values_view(res@) == values_view(vs@),
{
    let mut out: Vec<IntermediateValue> = Vec::new();
    let mut i: usize = 0;
    while i < vs.len()
        invariant
            i <= vs.len(),
            values_view(out@) == values_view(vs@.take(i as int)),
        decreases vs.len() - i,
    {
        out.push(vs[i].clone());
        proof {
            assert(values_view(vs@.take(i + 1)) == values_view(vs@.take(i as int)).push(vs@[i as int]@));
        }
        i = i + 1;
    }
    proof {
        assert(vs@.take(vs.len() as int) == vs@);
    }
    out
}

/// Copies a sequence of arguments.
pub fn clone_args(args: &Vec<IntermediateArg>) -> (res: Vec<IntermediateArg>)
    ensures
        args_view(res@) == args_view(args@),
{
    let mut out: Vec<IntermediateArg> = Vec::new();
    let mut i: usize = 0;
    while i < args.len()
        invariant
            i <= args.len(),
            args_view(out@) == args_view(args@.take(i as int)),
        decreases args.len() - i,
    {
        out.push(args[i].clone());
        proof {
            assert(args_view(args@.take(i + 1)) == args_view(args@.take(i as int)).push(args@[i as int]@));
        }
        i = i + 1;
    }
    proof {
        assert(args@.take(args.len() as int) == args@);
    }
    out
}

impl Clone for IntermediateExpression {
    fn clone(&self) -> (res: Self)
        ensures
            res@ == self@,
        decreases self,
    {
        match self {
            IntermediateExpression::IntermediateValue(v) => IntermediateExpression::IntermediateValue(v.clone()),
            IntermediateExpression::IntermediateElementAccess(e) => IntermediateExpression::IntermediateElementAccess(
                IntermediateElementAccess { value: e.value.clone(), idx: e.idx },
            ),
            IntermediateExpression::IntermediateTupleExpression(t) => IntermediateExpression::IntermediateTupleExpression(
                IntermediateTupleExpression(clone_values(&t.0)),
            ),
            IntermediateExpression::IntermediateFnCall(f) => IntermediateExpression::IntermediateFnCall(
                IntermediateFnCall { fn_: f.fn_.clone(), args: clone_values(&f.args) },
            ),
            IntermediateExpression::IntermediateCtorCall(c) => {
                let data = match &c.data {
                    None => None,
                    Some(v) => Some(v.clone()),
                };
                IntermediateExpression::IntermediateCtorCall(IntermediateCtorCall { idx: c.idx, data, type_: c.type_.clone() })
            },
            IntermediateExpression::IntermediateLambda(l) => IntermediateExpression::IntermediateLambda(
                IntermediateLambda { args: clone_args(&l.args), block: clone_block(&l.block) },
            ),
            IntermediateExpression::IntermediateIf(i) => IntermediateExpression::IntermediateIf(IntermediateIf {
                condition: i.condition.clone(),
                branches: (clone_block(&i.branches.0), clone_block(&i.branches.1)),
            }),
            IntermediateExpression::IntermediateMatch(m) => {
                let res = IntermediateMatch { subject: m.subject.clone(), branches: clone_branches(&m.branches) };
                proof {
                    lemma_match_view(*m);
                    lemma_match_view(res);
                }
                IntermediateExpression::IntermediateMatch(res)
            },
        }
    }
}

/// Copies a block.
pub fn clone_block(b: &IntermediateBlock) -> (res: IntermediateBlock)
    ensures
        res@ == b@,
    decreases b,
{
    let res = IntermediateBlock { statements: clone_statements(&b.statements), ret: b.ret.clone() };
    proof {
        lemma_block_view(*b);
        lemma_block_view(res);
    }
    res
}

/// Copies a statement.
pub fn clone_statement(s: &IntermediateStatement) -> (res: IntermediateStatement)
    ensures
        res@ == s@,
    decreases s,
{
    match s {
        IntermediateStatement::IntermediateAssignment(a) => IntermediateStatement::IntermediateAssignment(
            IntermediateAssignment { expression: a.expression.clone(), location: a.location },
        ),
    }
}

/// Copies a sequence of statements.
pub fn clone_statements(st: &Vec<IntermediateStatement>) -> (res: Vec<IntermediateStatement>)
    ensures
        statements_view(res@) == statements_view(st@),
    decreases st,
{
    let mut out: Vec<IntermediateStatement> = Vec::new();
    let mut i: usize = 0;
    while i < st.len()
        invariant
            i <= st.len(),
            out@.len() == i,
            forall|j: int| 0 <= j < i ==> (#[trigger] out@[j])@ == st@[j]@,
        decreases st.len() - i,
    {
        out.push(clone_statement(&st[i]));
        i = i + 1;
    }
    proof {
        assert(statements_view(out@) =~= statements_view(st@));
    }
    out
}

/// Copies a sequence of match branches.
pub fn clone_branches(bs: &Vec<IntermediateMatchBranch>) -> (res: Vec<IntermediateMatchBranch>)
    ensures
        branches_view(res@) == branches_view(bs@),
    decreases bs,
{
    let mut out: Vec<IntermediateMatchBranch> = Vec::new();
    let mut i: usize = 0;
    while i < bs.len()
        invariant
            i <= bs.len(),
            out@.len() == i,
            forall|j: int| 0 <= j < i ==> (#[trigger] out@[j])@ == bs@[j]@,
        decreases bs.len() - i,
    {
        let target = match &bs[i].target {
            None => None,
            Some(a) => Some(a.clone()),
        };
        out.push(IntermediateMatchBranch { target, block: clone_block(&bs[i].block) });
        i = i + 1;
    }
    proof {
        assert(branches_view(out@) =~= branches_view(bs@));
    }
    out
}

impl Clone for IntermediateBlock {
    fn clone(&self) -> (res: Self)
        ensures
            res@ == self@,
    {
        clone_block(self)
    }
}

impl Clone for IntermediateStatement {
    fn clone(&self) -> (res: Self)
        ensures
            res@ == self@,
    {
        clone_statement(self)
    }
}

impl Clone for IntermediateLambda {
    fn clone(&self) -> (res: Self)
        ensures
            res@ == self@,
    {
        IntermediateLambda { args: clone_args(&self.args), block: clone_block(&self.block) }
    }
}

} // verus!
