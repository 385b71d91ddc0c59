//! Queries and rewrites on the intermediate representation: types of nodes,
//! locations assigned to, values used, open variables and substitution.

use std::collections::HashMap;
use vstd::prelude::*;
use crate::atoms::{AtomicTypeEnum};
use crate::intermediate::{
    args_view, lemma_block_view, lemma_fn_type_view, lemma_match_view, lemma_tuple_type_view, lemma_union_type_view,
    statements_view, types_view, values_view, AtomicType, BuiltInFn, IntermediateArg,
    IntermediateBlock, IntermediateBuiltIn, IntermediateCtorCall, IntermediateElementAccess,
    IntermediateExpression, IntermediateFnCall, IntermediateFnType, IntermediateIf,
    IntermediateLambda, IntermediateMatch, IntermediateMatchBranch, IntermediateMemory,
    IntermediateStatement, IntermediateTupleExpression, IntermediateTupleType, IntermediateType,
    IntermediateUnionType, IntermediateValue, IntermediateAssignment, Location,
};
use crate::ir_clone::clone_types;
use crate::ir_model::{
    block_type, builtin_type, expression_type, expression_typable, element_access_ok, fn_call_ok,
    lambda_type, memory_location, subst_value, subst_values, value_location, value_type,
    value_types, TypeModel, ValueModel,
};

verus! {

broadcast use vstd::std_specs::hash::group_hash_axioms;

/// A renaming of locations, from the number of a location to the number of its image.
pub type Substitution = HashMap<usize, usize>;

/// The numbers of a sequence of locations.
pub open spec fn locations_view(ls: Seq<Location>) -> Seq<usize> {
    ls.map_values(|l: Location| l.0)
}

impl IntermediateBuiltIn {
    /// The type of a built-in value.
    pub fn type_(&self) -> (res: IntermediateType)
        ensures
            res@ == builtin_type(self@),
    {
        match self {
            IntermediateBuiltIn::Integer(_) => IntermediateType::AtomicType(AtomicType(AtomicTypeEnum::INT)),
            IntermediateBuiltIn::Boolean(_) => IntermediateType::AtomicType(AtomicType(AtomicTypeEnum::BOOL)),
            IntermediateBuiltIn::BuiltInFn(BuiltInFn(_, t)) => {
                let c = t.clone();
                proof {
                    lemma_fn_type_view(t.0, t.1);
                    lemma_fn_type_view(c.0, c.1);
                }
                IntermediateType::IntermediateFnType(c)
            },
        }
    }
}

impl IntermediateMemory {
    /// The type stored at this memory location.
    pub fn type_(&self) -> (res: IntermediateType)
        ensures
            res@ == self.type_@,
    {
        self.type_.clone()
    }
}

impl IntermediateArg {
    /// The type of this argument.
    pub fn type_(&self) -> (res: IntermediateType)
        ensures
            res@ == self.type_@,
    {
        self.type_.clone()
    }
}

impl IntermediateValue {
    /// Renames the location of a value: a memory location is renamed when the
    /// substitution maps it, and an argument that the substitution maps becomes
    /// the memory location it is mapped to.
    pub fn substitute(&self, substitution: &Substitution) -> (res: IntermediateValue)
        ensures
            res@ == subst_value(self@, substitution@),
    {
        match self {
            IntermediateValue::IntermediateBuiltIn(b) => IntermediateValue::IntermediateBuiltIn(b.clone()),
            IntermediateValue::IntermediateMemory(m) => {
                let location = match substitution.get(&m.location.0) {
                    Some(l) => Location(*l),
                    None => m.location,
                };
                IntermediateValue::IntermediateMemory(IntermediateMemory { type_: m.type_.clone(), location })
            },
            IntermediateValue::IntermediateArg(a) => match substitution.get(&a.location.0) {
                None => IntermediateValue::IntermediateArg(a.clone()),
                Some(l) => IntermediateValue::IntermediateMemory(
                    IntermediateMemory { location: Location(*l), type_: a.type_.clone() },
                ),
            },
        }
    }

    /// Renames the locations of a sequence of values.
    pub fn substitute_all(values: &Vec<IntermediateValue>, substitution: &Substitution) -> (res: Vec<IntermediateValue>)
        ensures
            values_view(res@) == subst_values(values_view(values@), substitution@),
    {
        let mut out: Vec<IntermediateValue> = Vec::new();
        let mut i: usize = 0;
        while i < values.len()
            invariant
                i <= values.len(),
                out@.len() == i,
                forall|j: int| 0 <= j < i ==> (#[trigger] out@[j])@ == subst_value(values@[j]@, substitution@),
            decreases values.len() - i,
        {
            out.push(values[i].substitute(substitution));
            i = i + 1;
        }
        proof {
            assert(values_view(out@) =~= subst_values(values_view(values@), substitution@));
        }
        out
    }

    /// The type of a value.
    pub fn type_(&self) -> (res: IntermediateType)
        ensures
            res@ == value_type(self@),
    {
        match self {
            IntermediateValue::IntermediateBuiltIn(b) => b.type_(),
            IntermediateValue::IntermediateMemory(m) => m.type_(),
            IntermediateValue::IntermediateArg(a) => a.type_(),
        }
    }

    /// The location of a value, if it is a memory location or an argument.
    pub fn location(&self) -> (res: Option<Location>)
        ensures
            match res {
                None => value_location(self@) is None,
                Some(l) => value_location(self@) == Some(l.0),
            },
    {
        match self {
            IntermediateValue::IntermediateBuiltIn(_) => None,
            IntermediateValue::IntermediateMemory(m) => Some(m.location),
            IntermediateValue::IntermediateArg(a) => Some(a.location),
        }
    }

    /// The types of a sequence of values.
    pub fn types(values: &Vec<IntermediateValue>) -> (res: Vec<IntermediateType>)
        ensures
            types_view(res@) == value_types(values_view(values@)),
    {
        let mut out: Vec<IntermediateType> = Vec::new();
        let mut i: usize = 0;
        while i < values.len()
            invariant
                i <= values.len(),
                out@.len() == i,
                forall|j: int| 0 <= j < i ==> (#[trigger] out@[j])@ == value_type(values@[j]@),
            decreases values.len() - i,
        {
            out.push(values[i].type_());
            i = i + 1;
        }
        proof {
            assert(types_view(out@) =~= value_types(values_view(values@)));
        }
        out
    }

    /// The location of a value, if it is a memory location.
    pub fn filter_memory_location(&self) -> (res: Option<Location>)
        ensures
            match res {
                None => memory_location(self@) is None,
                Some(l) => memory_location(self@) == Some(l.0),
            },
    {
        if let IntermediateValue::IntermediateMemory(m) = self {
            Some(m.location)
        } else {
            None
        }
    }
}

impl IntermediateElementAccess {
    /// The type of the accessed element.
    pub fn type_(&self) -> (res: IntermediateType)
        requires
            element_access_ok(self.value@, self.idx),
        ensures
            res@ == match value_type(self.value@) {
                TypeModel::Tuple(ts) => ts[self.idx as int],
                _ => TypeModel::Tuple(Seq::empty()),
            },
    {
        let t = self.value.type_();
        match t {
            IntermediateType::IntermediateTupleType(IntermediateTupleType(types)) => {
                proof {
                    lemma_tuple_type_view(types);
                }
                types[self.idx].clone()
            },
            _ => {
                proof {
                    assert(false);
                }
                IntermediateType::IntermediateTupleType(IntermediateTupleType(Vec::new()))
            },
        }
    }
}

impl IntermediateTupleExpression {
    /// The type of a tuple: the tuple of the types of its values.
    pub fn type_(&self) -> (res: IntermediateTupleType)
        ensures
            types_view(res.0@) == value_types(values_view(self.0@)),
    {
        IntermediateTupleType(IntermediateValue::types(&self.0))
    }
}

impl IntermediateFnCall {
    /// The type of a call: the return type of the called function.
    pub fn type_(&self) -> (res: IntermediateType)
        requires
            fn_call_ok(self.fn_@),
        ensures
            res@ == match value_type(self.fn_@) {
                TypeModel::Function(_, r) => *r,
                _ => TypeModel::Tuple(Seq::empty()),
            },
    {
        let t = self.fn_.type_();
        match t {
            IntermediateType::IntermediateFnType(IntermediateFnType(args, ret)) => {
                proof {
                    lemma_fn_type_view(args, ret);
                }
                *ret
            },
            _ => {
                proof {
                    assert(false);
                }
                IntermediateType::IntermediateTupleType(IntermediateTupleType(Vec::new()))
            },
        }
    }
}

impl IntermediateCtorCall {
    /// The union type that the constructor builds.
    pub fn type_(&self) -> (res: IntermediateUnionType)
        ensures
            res@ == self.type_@,
    {
        self.type_.clone()
    }
}

impl IntermediateBlock {
    /// The type of a block: the type of its returned value.
    pub fn type_(&self) -> (res: IntermediateType)
        ensures
            res@ == block_type(self@),
    {
        self.ret.type_()
    }
}

impl IntermediateLambda {
    /// The function type of a lambda.
    pub fn type_(&self) -> (res: IntermediateFnType)
        ensures
            res@ == lambda_type(self@),
    {
        let mut arg_types: Vec<IntermediateType> = Vec::new();
        let mut i: usize = 0;
        while i < self.args.len()
            invariant
                i <= self.args.len(),
                arg_types@.len() == i,
                forall|j: int| 0 <= j < i ==> (#[trigger] arg_types@[j])@ == self.args@[j].type_@,
            decreases self.args.len() - i,
        {
            arg_types.push(self.args[i].type_());
            i = i + 1;
        }
        let ret = self.block.type_();
        proof {
            lemma_fn_type_view(arg_types, Box::new(ret));
            assert(types_view(arg_types@) =~= args_view(self.args@).map_values(|a: crate::ir_model::SlotModel| a.type_));
        }
        IntermediateFnType(arg_types, Box::new(ret))
    }
}

impl IntermediateIf {
    /// The type of a conditional: the type of its first branch.
    pub fn type_(&self) -> (res: IntermediateType)
        ensures
            res@ == block_type(self.branches.0@),
    {
        self.branches.0.type_()
    }
}

impl IntermediateMatch {
    /// The type of a match: the type of its first branch.
    pub fn type_(&self) -> (res: IntermediateType)
        requires
            self.branches.len() > 0,
        ensures
            res@ == block_type(self.branches@[0].block@),
    {
        self.branches[0].block.type_()
    }
}

impl IntermediateExpression {
    /// The type of an expression.
    pub fn type_(&self) -> (res: IntermediateType)
        requires
            expression_typable(self@),
        ensures
            res@ == expression_type(self@),
    {
        match self {
            IntermediateExpression::IntermediateValue(v) => v.type_(),
            IntermediateExpression::IntermediateElementAccess(e) => e.type_(),
            IntermediateExpression::IntermediateTupleExpression(t) => {
                let tt = t.type_();
                proof {
                    lemma_tuple_type_view(tt.0);
                }
                IntermediateType::IntermediateTupleType(tt)
            },
            IntermediateExpression::IntermediateFnCall(f) => f.type_(),
            IntermediateExpression::IntermediateCtorCall(c) => {
                let u = c.type_();
                proof {
                    lemma_union_type_view(u.0);
                }
                IntermediateType::IntermediateUnionType(u)
            },
            IntermediateExpression::IntermediateLambda(l) => IntermediateType::IntermediateFnType(l.type_()),
            IntermediateExpression::IntermediateIf(i) => i.type_(),
            IntermediateExpression::IntermediateMatch(m) => {
                proof {
                    lemma_match_view(*m);
                }
                m.type_()
            },
        }
    }
}

} // verus!
