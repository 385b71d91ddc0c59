//! Structural equality of types and built-in values, computed on their models.

use vstd::prelude::*;
use crate::intermediate::{
    lemma_fn_type_view, lemma_tuple_type_view, lemma_union_type_view, types_view, variants_view,
    AtomicType, BuiltInFn, IntermediateBuiltIn, IntermediateFnType, IntermediateTupleType,
    IntermediateType, IntermediateUnionType,
};

verus! {

/// Whether two types are equal.
pub fn type_eq(a: &IntermediateType, b: &IntermediateType) -> (res: bool)
    ensures
        res == (a@ == b@),
    decreases a,
{
    match (a, b) {
        (IntermediateType::AtomicType(AtomicType(x)), IntermediateType::AtomicType(AtomicType(y))) => *x == *y,
        (IntermediateType::IntermediateTupleType(IntermediateTupleType(xs)), IntermediateType::IntermediateTupleType(IntermediateTupleType(ys))) => {
            proof {
                lemma_tuple_type_view(*xs);
                lemma_tuple_type_view(*ys);
            }
            types_eq(xs, ys)
        },
        (IntermediateType::IntermediateFnType(IntermediateFnType(xa, xr)), IntermediateType::IntermediateFnType(IntermediateFnType(ya, yr))) => {
            proof {
                lemma_fn_type_view(*xa, *xr);
                lemma_fn_type_view(*ya, *yr);
            }
            types_eq(xa, ya) && type_eq(xr, yr)
        },
        (IntermediateType::IntermediateUnionType(IntermediateUnionType(xs)), IntermediateType::IntermediateUnionType(IntermediateUnionType(ys))) => {
            proof {
                lemma_union_type_view(*xs);
                lemma_union_type_view(*ys);
            }
            variants_eq(xs, ys)
        },
        (IntermediateType::Reference(i), IntermediateType::Reference(j)) => *i == *j,
        _ => false,
    }
}

/// Whether two sequences of types are equal.
pub fn types_eq(xs: &Vec<IntermediateType>, ys: &Vec<IntermediateType>) -> (res: bool)
    ensures
        res == (types_view(xs@) == types_view(ys@)),
    decreases xs,
{
    if xs.len() != ys.len() {
        proof {
            assert(types_view(xs@).len() != types_view(ys@).len());
        }
        return false;
    }
    let mut i: usize = 0;
    while i < xs.len()
        invariant
            i <= xs.len(),
            xs.len() == ys.len(),
            forall|j: int| 0 <= j < i ==> (#[trigger] xs@[j])@ == ys@[j]@,
        decreases xs.len() - i,
    {
        if !type_eq(&xs[i], &ys[i]) {
            proof {
                assert(types_view(xs@)[i as int] != types_view(ys@)[i as int]);
            }
            return false;
        }
        i = i + 1;
    }
    proof {
        assert(types_view(xs@) =~= types_view(ys@));
    }
    true
}

/// Whether two sequences of union variants are equal.
pub fn variants_eq(xs: &Vec<Option<IntermediateType>>, ys: &Vec<Option<IntermediateType>>) -> (res: bool)
    ensures
        res == (variants_view(xs@) == variants_view(ys@)),
    decreases xs,
{
    if xs.len() != ys.len() {
        proof {
            assert(variants_view(xs@).len() != variants_view(ys@).len());
        }
        return false;
    }
    let mut i: usize = 0;
    while i < xs.len()
        invariant
            i <= xs.len(),
            xs.len() == ys.len(),
            forall|j: int| 0 <= j < i ==> variants_view(xs@)[j] == variants_view(ys@)[j],
        decreases xs.len() - i,
    {
        let same = match (&xs[i], &ys[i]) {
            (None, None) => true,
            (Some(x), Some(y)) => {
                proof {
                    assert(decreases_to!(xs => xs@[i as int]));
                }
                type_eq(x, y)
            },
            _ => false,
        };
        if !same {
            proof {
                assert(variants_view(xs@)[i as int] != variants_view(ys@)[i as int]);
            }
            return false;
        }
        i = i + 1;
    }
    proof {
        assert(variants_view(xs@) =~= variants_view(ys@));
    }
    true
}

/// Whether two union types are equal.
pub fn union_type_eq(a: &IntermediateUnionType, b: &IntermediateUnionType) -> (res: bool)
    ensures
        res == (a@ == b@),
{
    variants_eq(&a.0, &b.0)
}

/// Whether two built-in values are equal.
pub fn builtin_eq(a: &IntermediateBuiltIn, b: &IntermediateBuiltIn) -> (res: bool)
    ensures
        res == (a@ == b@),
{
    match (a, b) {
        (IntermediateBuiltIn::Integer(x), IntermediateBuiltIn::Integer(y)) => x.value == y.value,
        (IntermediateBuiltIn::Boolean(x), IntermediateBuiltIn::Boolean(y)) => x.value == y.value,
        (IntermediateBuiltIn::BuiltInFn(BuiltInFn(xn, IntermediateFnType(xa, xr))), IntermediateBuiltIn::BuiltInFn(BuiltInFn(yn, IntermediateFnType(ya, yr)))) => {
            *xn == *yn && types_eq(xa, ya) && type_eq(xr, yr)
        },
        _ => false,
    }
}

} // verus!
