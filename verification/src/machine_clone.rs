//! Copies of machine nodes that keep their meaning.

use vstd::prelude::*;
use crate::machine::{
    lemma_machine_fn_view, lemma_machine_tuple_view, machine_types_view, names_view, FnType,
    MachineType, Memory, TupleType, UnionType, AtomicType,
};

verus! {

impl Clone for MachineType {
    fn clone(&self) -> (res: Self)
        ensures
            res@ == self@,
        decreases self,
    {
        match self {
            MachineType::AtomicType(AtomicType(a)) => MachineType::AtomicType(AtomicType(*a)),
            MachineType::TupleType(TupleType(ts)) => {
                let cts = clone_machine_types(ts);
                proof {
                    lemma_machine_tuple_view(*ts);
                    lemma_machine_tuple_view(cts);
                }
                MachineType::TupleType(TupleType(cts))
            },
            MachineType::FnType(FnType(args, ret)) => {
                let r: MachineType = (**ret).clone();
                let cargs = clone_machine_types(args);
                proof {
                    lemma_machine_fn_view(*args, *ret);
                    lemma_machine_fn_view(cargs, Box::new(r));
                }
                MachineType::FnType(FnType(cargs, Box::new(r)))
            },
            MachineType::WeakFnType(FnType(args, ret)) => {
                let r: MachineType = (**ret).clone();
                let cargs = clone_machine_types(args);
                proof {
                    lemma_machine_fn_view(*args, *ret);
                    lemma_machine_fn_view(cargs, Box::new(r));
                }
                MachineType::WeakFnType(FnType(cargs, Box::new(r)))
            },
            MachineType::UnionType(UnionType(names)) => {
                let cnames = clone_names(names);
                let res = MachineType::UnionType(UnionType(cnames));
                proof {
                    assert(res@ == self@);
                }
                res
            },
            MachineType::NamedType(n) => MachineType::NamedType(n.clone()),
        }
    }
}

impl Clone for FnType {
    fn clone(&self) -> (res: Self)
        ensures
            res@ == self@,
    {
        let r: MachineType = (*self.1).clone();
        let cargs = clone_machine_types(&self.0);
        proof {
            lemma_machine_fn_view(self.0, self.1);
            lemma_machine_fn_view(cargs, Box::new(r));
        }
        FnType(cargs, Box::new(r))
    }
}

impl Clone for Memory {
    fn clone(&self) -> (res: Self)
        ensures
            res == *self,
    {
        Memory(self.0.clone())
    }
}

/// Copies of a sequence of types.
pub fn clone_machine_types(ts: &Vec<MachineType>) -> (res: Vec<MachineType>)
    ensures
        machine_types_view(res@) == machine_types_view(ts@),
    decreases ts,
{
    let mut out: Vec<MachineType> = Vec::new();
    let mut i: usize = 0;
    while i < ts.len()
        invariant
            i <= ts.len(),
            out@.len() == i,
            forall|j: int| 0 <= j < i ==> (#[trigger] out@[j])@ == ts@[j]@,
        decreases ts.len() - i,
    {
        proof {
            assert(decreases_to!(ts => ts@[i as int]));
        }
        out.push(ts[i].clone());
        i = i + 1;
    }
    proof {
        assert(machine_types_view(out@) =~= machine_types_view(ts@));
    }
    out
}

/// Copies of a sequence of names.
pub fn clone_names(ns: &Vec<String>) -> (res: Vec<String>)
    ensures
        res@ == ns@,
        names_view(res@) == names_view(ns@),
{
    let mut out: Vec<String> = Vec::new();
    let mut i: usize = 0;
    while i < ns.len()
        invariant
            i <= ns.len(),
            out@ == ns@.take(i as int),
        decreases ns.len() - i,
    {
        out.push(ns[i].clone());
        proof {
            assert(out@ =~= ns@.take(i + 1));
        }
        i = i + 1;
    }
    proof {
        assert(out@ =~= ns@);
    }
    out
}

} // verus!
