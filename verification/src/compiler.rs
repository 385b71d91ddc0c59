//! Compilation of the intermediate representation into machine nodes:
//! locations become named memory, union types become named type definitions,
//! and lambdas become function definitions.

use std::collections::HashMap;
use vstd::prelude::*;
use crate::atoms::{AtomicTypeEnum, Boolean, Integer, Name};
use crate::intermediate::{
    lemma_fn_type_view, lemma_tuple_type_view, lemma_union_type_view, types_view, variants_view,
    AtomicType as IrAtomic, BuiltInFn, IntermediateBuiltIn, IntermediateFnType, IntermediateTupleType,
    IntermediateType, IntermediateUnionType, IntermediateValue, Location,
};
use crate::ir_model;
use crate::ir_model::TypeModel;
use crate::machine;
use crate::machine::{
    lemma_machine_fn_view, lemma_machine_tuple_view, machine_types_view, AtomicType, BuiltIn, FnType,
    MachineType, MachineTypeModel, Memory, TupleType, TypeDef, UnionType, Value,
};
use crate::equality::union_type_eq;
use crate::text::{decimal, push_decimal};

verus! {

broadcast use vstd::std_specs::hash::group_hash_axioms;

// ---------------------------------------------------------------------------
// Names.

/// The name of the memory with the given number.
pub open spec fn memory_name(n: nat) -> Seq<char> {
    "m"@ + decimal(n)
}

/// The name of the type definition with the given number.
pub open spec fn type_def_name(r: nat) -> Seq<char> {
    "T"@ + decimal(r)
}

/// The name of the `j`-th constructor of the type definition with number `r`.
pub open spec fn ctor_name(r: nat, j: nat) -> Seq<char> {
    "T"@ + decimal(r) + "C"@ + decimal(j)
}

/// The names of the first `n` constructors of the type definition with number `r`.
pub open spec fn ctor_names(r: nat, n: nat) -> Seq<Seq<char>>
    decreases n,
{
    if n == 0 {
        Seq::empty()
    } else {
        ctor_names(r, (n - 1) as nat).push(ctor_name(r, (n - 1) as nat))
    }
}

/// The name of the function definition with the given number.
pub open spec fn fn_name(n: nat) -> Seq<char> {
    "F"@ + decimal(n)
}

/// The built-in operators with the names of the functions that implement them.
pub open spec fn operator_names() -> Seq<(Seq<char>, Seq<char>)> {
    seq![
        ("+"@, "Plus__BuiltIn"@),
        ("-"@, "Minus__BuiltIn"@),
        ("*"@, "Multiply__BuiltIn"@),
        ("/"@, "Divide__BuiltIn"@),
        ("**"@, "Exponentiate__BuiltIn"@),
        ("%"@, "Modulo__BuiltIn"@),
        ("<<"@, "Left_Shift__BuiltIn"@),
        (">>"@, "Right_Shift__BuiltIn"@),
        ("<=>"@, "Spaceship__BuiltIn"@),
        ("&"@, "Bitwise_And__BuiltIn"@),
        ("|"@, "Bitwise_Or__BuiltIn"@),
        ("^"@, "Bitwise_Xor__BuiltIn"@),
        ("++"@, "Increment__BuiltIn"@),
        ("--"@, "Decrement__BuiltIn"@),
        ("<"@, "Comparison_LT__BuiltIn"@),
        ("<="@, "Comparison_LE__BuiltIn"@),
        (">"@, "Comparison_GT__BuiltIn"@),
        (">="@, "Comparison_GE__BuiltIn"@),
        ("=="@, "Comparison_EQ__BuiltIn"@),
        ("!="@, "Comparison_NE__BuiltIn"@),
        ("!"@, "Negation__BuiltIn"@),
    ]
}

/// The name of the function that implements an operator, if it is one.
pub open spec fn operator_name(op: Seq<char>) -> Option<Seq<char>> {
    if exists|i: int| 0 <= i < operator_names().len() && (#[trigger] operator_names()[i]).0 == op {
        Some(operator_names()[choose|i: int| 0 <= i < operator_names().len() && (#[trigger] operator_names()[i]).0 == op].1)
    } else {
        None
    }
}

/// The name of the function that implements an operator.
pub fn operator_function_name(op: &String) -> (res: Option<String>)
    ensures
        match res {
            Some(n) => operator_name(op@) == Some(n@),
            None => operator_name(op@) is None,
        },
{
    let table: [(&str, &str); 21] = [
        ("+", "Plus__BuiltIn"),
        ("-", "Minus__BuiltIn"),
        ("*", "Multiply__BuiltIn"),
        ("/", "Divide__BuiltIn"),
        ("**", "Exponentiate__BuiltIn"),
        ("%", "Modulo__BuiltIn"),
        ("<<", "Left_Shift__BuiltIn"),
        (">>", "Right_Shift__BuiltIn"),
        ("<=>", "Spaceship__BuiltIn"),
        ("&", "Bitwise_And__BuiltIn"),
        ("|", "Bitwise_Or__BuiltIn"),
        ("^", "Bitwise_Xor__BuiltIn"),
        ("++", "Increment__BuiltIn"),
        ("--", "Decrement__BuiltIn"),
        ("<", "Comparison_LT__BuiltIn"),
        ("<=", "Comparison_LE__BuiltIn"),
        (">", "Comparison_GT__BuiltIn"),
        (">=", "Comparison_GE__BuiltIn"),
        ("==", "Comparison_EQ__BuiltIn"),
        ("!=", "Comparison_NE__BuiltIn"),
        ("!", "Negation__BuiltIn"),
    ];
    let mut i: usize = 0;
    while i < 21
        invariant
            i <= 21,
            table@.len() == 21,
            forall|j: int| 0 <= j < 21 ==> (#[trigger] table@[j]).0@ == operator_names()[j].0
                && table@[j].1@ == operator_names()[j].1,
            forall|j: int| 0 <= j < i ==> operator_names()[j].0 != op@,
        decreases 21 - i,
    {
        let key = String::from_str(table[i].0);
        if key == *op {
            proof {
                let k = choose|k: int| 0 <= k < operator_names().len() && (#[trigger] operator_names()[k]).0 == op@;
                if k != i {
                    lemma_operator_names_distinct(k, i as int);
                }
            }
            return Some(String::from_str(table[i].1));
        }
        i = i + 1;
    }
    None
}

proof fn lemma_operator_names_distinct(i: int, j: int)
    requires
        0 <= i < 21,
        0 <= j < 21,
        i != j,
    ensures
        operator_names()[i].0 != operator_names()[j].0,
{
    reveal_strlit("+");
    reveal_strlit("-");
    reveal_strlit("*");
    reveal_strlit("/");
    reveal_strlit("**");
    reveal_strlit("%");
    reveal_strlit("<<");
    reveal_strlit(">>");
    reveal_strlit("<=>");
    reveal_strlit("&");
    reveal_strlit("|");
    reveal_strlit("^");
    reveal_strlit("++");
    reveal_strlit("--");
    reveal_strlit("<");
    reveal_strlit("<=");
    reveal_strlit(">");
    reveal_strlit(">=");
    reveal_strlit("==");
    reveal_strlit("!=");
    reveal_strlit("!");
    let a = operator_names()[i].0;
    let b = operator_names()[j].0;
    assert(a.len() != b.len() || a[0] != b[0] || a[a.len() - 1] != b[b.len() - 1]);
}

// ---------------------------------------------------------------------------
// Types.

/// The number of union types among the first `i` entries of the type table:
/// the `i`-th entry, if it is a union type, becomes the type definition with
/// that number.
pub open spec fn union_rank(table: Seq<TypeModel>, i: int) -> nat
    decreases i,
{
    if i <= 0 || table.len() == 0 {
        0
    } else if i > table.len() {
        union_rank(table, table.len() as int)
    } else {
        union_rank(table, i - 1) + if table[i - 1] is Union { 1nat } else { 0nat }
    }
}

/// The last entry of the type table that is the given union type.
pub open spec fn find_union(table: Seq<TypeModel>, vs: Seq<Option<TypeModel>>) -> Option<int>
    decreases table.len(),
{
    if table.len() == 0 {
        None
    } else if table.last() == TypeModel::Union(vs) {
        Some(table.len() - 1)
    } else {
        find_union(table.drop_last(), vs)
    }
}

/// Whether a type can be compiled against a type table, following at most
/// `fuel` references to entries that are not union types: each union type in
/// it is an entry of the table, and each reference refers to an entry of the
/// table that is a union type or is itself compilable.
pub open spec fn type_ok_fuel(table: Seq<TypeModel>, t: TypeModel, fuel: nat) -> bool
    decreases fuel, t,
{
    match t {
        TypeModel::Atomic(_) => true,
        TypeModel::Tuple(ts) => types_ok_fuel(table, ts, fuel),
        TypeModel::Function(args, ret) => types_ok_fuel(table, args, fuel) && type_ok_fuel(table, *ret, fuel),
        TypeModel::Union(vs) => find_union(table, vs) is Some,
        TypeModel::Reference(j) => j < table.len() && (table[j as int] is Union
            || (fuel > 0 && type_ok_fuel(table, table[j as int], (fuel - 1) as nat))),
    }
}

pub open spec fn types_ok_fuel(table: Seq<TypeModel>, ts: Seq<TypeModel>, fuel: nat) -> bool
    decreases fuel, ts,
{
    if ts.len() == 0 {
        true
    } else {
        types_ok_fuel(table, ts.drop_last(), fuel) && type_ok_fuel(table, ts.last(), fuel)
    }
}

/// Whether a type can be compiled against a type table. A chain of references
/// through entries that are not union types visits distinct entries unless it
/// runs in a cycle, so with as many steps as the table has entries this holds
/// exactly when every cycle of references passes through a union type.
pub open spec fn type_compilable(table: Seq<TypeModel>, t: TypeModel) -> bool {
    type_ok_fuel(table, t, table.len())
}

pub open spec fn types_compilable(table: Seq<TypeModel>, ts: Seq<TypeModel>) -> bool {
    types_ok_fuel(table, ts, table.len())
}

/// The machine type of an intermediate type, following at most `fuel`
/// references to entries that are not union types: a union type becomes the
/// union of the constructors of its definition, a reference to a union type
/// names its definition, and a reference to another entry is that entry's
/// machine type.
pub open spec fn compile_type_fuel(table: Seq<TypeModel>, t: TypeModel, fuel: nat) -> MachineTypeModel
    decreases fuel, t,
{
    match t {
        TypeModel::Atomic(a) => MachineTypeModel::Atomic(a),
        TypeModel::Tuple(ts) => MachineTypeModel::Tuple(compile_types_fuel(table, ts, fuel)),
        TypeModel::Function(args, ret) => MachineTypeModel::Function(
            compile_types_fuel(table, args, fuel),
            Box::new(compile_type_fuel(table, *ret, fuel)),
        ),
        TypeModel::Union(vs) => MachineTypeModel::Union(
            ctor_names(union_rank(table, find_union(table, vs)->0), vs.len()),
        ),
        TypeModel::Reference(j) => if 0 <= j < table.len() && table[j as int] is Union {
            MachineTypeModel::Named(type_def_name(union_rank(table, j as int)))
        } else if fuel > 0 && 0 <= j < table.len() {
            compile_type_fuel(table, table[j as int], (fuel - 1) as nat)
        } else {
            MachineTypeModel::Named(Seq::empty())
        },
    }
}

pub open spec fn compile_types_fuel(table: Seq<TypeModel>, ts: Seq<TypeModel>, fuel: nat) -> Seq<MachineTypeModel>
    decreases fuel, ts,
{
    if ts.len() == 0 {
        Seq::empty()
    } else {
        compile_types_fuel(table, ts.drop_last(), fuel).push(compile_type_fuel(table, ts.last(), fuel))
    }
}

/// The machine type of an intermediate type against a type table.
pub open spec fn compile_type_spec(table: Seq<TypeModel>, t: TypeModel) -> MachineTypeModel {
    compile_type_fuel(table, t, table.len())
}

pub open spec fn compile_types_spec(table: Seq<TypeModel>, ts: Seq<TypeModel>) -> Seq<MachineTypeModel> {
    compile_types_fuel(table, ts, table.len())
}

/// The type definitions of the union types among the first `n` entries of a
/// type table, in order: the `i`-th has the constructors `TiC0`, `TiC1`, ...
/// with the compiled types of their data.
pub open spec fn type_defs_upto(table: Seq<TypeModel>, n: int) -> Seq<machine::TypeDefModel>
    decreases n,
{
    if n <= 0 || n > table.len() {
        Seq::empty()
    } else {
        let rest = type_defs_upto(table, n - 1);
        match table[n - 1] {
            TypeModel::Union(vs) => rest.push(machine::TypeDefModel {
                name: type_def_name(union_rank(table, n - 1)),
                constructors: constructors_spec(table, union_rank(table, n - 1), vs),
            }),
            _ => rest,
        }
    }
}

/// The type definitions of the union types of a type table, in order.
pub open spec fn type_defs_spec(table: Seq<TypeModel>) -> Seq<machine::TypeDefModel> {
    type_defs_upto(table, table.len() as int)
}

/// The constructors of the definition with number `r` of a union type.
pub open spec fn constructors_spec(table: Seq<TypeModel>, r: nat, vs: Seq<Option<TypeModel>>) -> Seq<(Seq<char>, Option<MachineTypeModel>)>
    decreases vs.len(),
{
    if vs.len() == 0 {
        Seq::empty()
    } else {
        constructors_spec(table, r, vs.drop_last()).push((
            ctor_name(r, (vs.len() - 1) as nat),
            match vs.last() {
                None => None,
                Some(t) => Some(compile_type_spec(table, t)),
            },
        ))
    }
}

/// Whether every type of the data of the union types of a table can be compiled.
pub open spec fn table_compilable(table: Seq<TypeModel>) -> bool {
    forall|i: int, j: int| 0 <= i < table.len() && table[i] is Union && 0 <= j < table[i]->Union_0.len()
        && table[i]->Union_0[j] is Some ==> type_compilable(table, #[trigger] table[i]->Union_0[j]->0)
}

/// The model of the compiler's state: the number given to each location
/// compiled so far, the number of memory names handed out, the next location
/// free for renaming, the table of type definitions and the function
/// definitions compiled so far.
pub struct CompilerModel {
    pub ids: Map<usize, nat>,
    pub next: nat,
    pub fresh: nat,
    pub table: Seq<TypeModel>,
    pub fn_defs: Seq<FnDefModel>,
}

/// The model of a function definition.
pub struct FnDefModel {
    pub name: Seq<char>,
    pub arguments: Seq<(Seq<char>, MachineTypeModel)>,
    pub statements: Seq<machine::StatementModel>,
    pub ret: (machine::ValueModel, MachineTypeModel),
    pub env: Seq<MachineTypeModel>,
    pub allocations: Seq<(MachineTypeModel, Seq<char>)>,
    pub size_bounds: (usize, usize),
    pub is_recursive: bool,
}

pub open spec fn fn_def_view(f: machine::FnDef) -> FnDefModel {
    FnDefModel {
        name: f.name@,
        arguments: f.arguments@.map_values(|a: (Memory, MachineType)| (a.0@, a.1@)),
        statements: machine::statements_view(f.statements@),
        ret: (f.ret.0@, f.ret.1@),
        env: machine_types_view(f.env@),
        allocations: f.allocations@.map_values(|d: machine::Declaration| (d.type_@, d.memory@)),
        size_bounds: f.size_bounds,
        is_recursive: f.is_recursive,
    }
}

pub open spec fn fn_defs_view(fs: Seq<machine::FnDef>) -> Seq<FnDefModel> {
    fs.map_values(|f: machine::FnDef| fn_def_view(f))
}

/// Compiles the intermediate representation into machine nodes.
pub struct Compiler {
    memory_ids: HashMap<usize, usize>,
    next_memory: usize,
    fresh_location: usize,
    type_table: Vec<IntermediateType>,
    union_ranks: Vec<Option<usize>>,
    fn_defs: Vec<machine::FnDef>,
}

impl View for Compiler {
    type V = CompilerModel;

    closed spec fn view(&self) -> CompilerModel {
        CompilerModel {
            ids: self.memory_ids@.map_values(|v: usize| v as nat),
            next: self.next_memory as nat,
            fresh: self.fresh_location as nat,
            table: types_view(self.type_table@),
            fn_defs: fn_defs_view(self.fn_defs@),
        }
    }
}

impl Compiler {
    /// Whether the private state agrees with its model.
    pub closed spec fn wf(&self) -> bool {
        &&& self.union_ranks@.len() == self.type_table@.len()
        &&& forall|i: int| 0 <= i < self.type_table@.len() ==> (#[trigger] self.union_ranks@[i]) == if types_view(self.type_table@)[i] is Union {
            Some(union_rank(types_view(self.type_table@), i) as usize)
        } else {
            None::<usize>
        }
        &&& forall|i: int| 0 <= i < self.type_table@.len() ==> union_rank(types_view(self.type_table@), i) < usize::MAX
        &&& forall|k: usize| #[trigger] self.memory_ids@.contains_key(k) ==> self.memory_ids@[k] < self.next_memory
        &&& forall|k1: usize, k2: usize| #[trigger] self.memory_ids@.contains_key(k1) && #[trigger] self.memory_ids@.contains_key(k2)
            && k1 != k2 ==> self.memory_ids@[k1] != self.memory_ids@[k2]
    }

    /// A compiler that has compiled nothing.
    pub fn new() -> (res: Self)
        ensures
            res.wf(),
            res@.ids == Map::<usize, nat>::empty(),
            res@.next == 0,
            res@.fresh == 0,
            res@.table == Seq::<TypeModel>::empty(),
            res@.fn_defs == Seq::<FnDefModel>::empty(),
    {
        let res = Compiler {
            memory_ids: HashMap::new(),
            next_memory: 0,
            fresh_location: 0,
            type_table: Vec::new(),
            union_ranks: Vec::new(),
            fn_defs: Vec::new(),
        };
        proof {
            assert(res@.ids =~= Map::<usize, nat>::empty());
            assert(res@.table =~= Seq::<TypeModel>::empty());
            assert(res@.fn_defs =~= Seq::<FnDefModel>::empty());
        }
        res
    }

    /// The name of the `j`-th constructor of the definition with number `r`.
    fn make_ctor_name(r: usize, j: usize) -> (res: String)
        ensures
            res@ == ctor_name(r as nat, j as nat),
    {
        let mut out = String::new();
        out.append("T");
        push_decimal(&mut out, r as u64);
        out.append("C");
        push_decimal(&mut out, j as u64);
        out
    }

    /// The names of the first `n` constructors of the definition with number `r`.
    fn make_ctor_names(r: usize, n: usize) -> (res: Vec<String>)
        ensures
            machine::names_view(res@) == ctor_names(r as nat, n as nat),
    {
        let mut out: Vec<String> = Vec::new();
        let mut j: usize = 0;
        while j < n
            invariant
                j <= n,
                machine::names_view(out@) == ctor_names(r as nat, j as nat),
            decreases n - j,
        {
            let ghost before = out@;
            out.push(Self::make_ctor_name(r, j));
            proof {
                assert(machine::names_view(out@) =~= machine::names_view(before).push(ctor_name(r as nat, j as nat)));
            }
            j = j + 1;
        }
        out
    }

    /// The index of the last entry of the type table that is the given union type.
    fn find_union_entry(&self, u: &IntermediateUnionType) -> (res: Option<usize>)
        ensures
            match res {
                Some(i) => find_union(self@.table, u@) == Some(i as int),
                None => find_union(self@.table, u@) is None,
            },
    {
        let ghost table = self@.table;
        let mut i: usize = self.type_table.len();
        proof {
            assert(table.take(i as int) =~= table);
        }
        while i > 0
            invariant
                i <= self.type_table.len(),
                table == self@.table,
                table == types_view(self.type_table@),
                find_union(table, u@) == find_union(table.take(i as int), u@),
            decreases i,
        {
            proof {
                assert(table.take(i as int).drop_last() =~= table.take(i - 1));
            }
            if let IntermediateType::IntermediateUnionType(x) = &self.type_table[i - 1] {
                proof {
                    lemma_union_type_view(x.0);
                }
                if union_type_eq(x, u) {
                    return Some(i - 1);
                }
            }
            i = i - 1;
        }
        None
    }

    /// The machine type of an intermediate type.
    pub fn compile_type(&self, type_: &IntermediateType) -> (res: MachineType)
        requires
            self.wf(),
            type_compilable(self@.table, type_@),
        ensures
            res@ == compile_type_spec(self@.table, type_@),
    {
        self.compile_type_with(type_, Ghost(self@.table.len()))
    }

    /// The machine type of an intermediate type, following at most `fuel`
    /// references to entries that are not union types.
    fn compile_type_with(&self, type_: &IntermediateType, Ghost(fuel): Ghost<nat>) -> (res: MachineType)
        requires
            self.wf(),
            type_ok_fuel(self@.table, type_@, fuel),
        ensures
            res@ == compile_type_fuel(self@.table, type_@, fuel),
        decreases fuel, type_,
    {
        match type_ {
            IntermediateType::AtomicType(IrAtomic(a)) => MachineType::AtomicType(AtomicType(*a)),
            IntermediateType::IntermediateTupleType(IntermediateTupleType(ts)) => {
                proof {
                    lemma_tuple_type_view(*ts);
                }
                let cts = self.compile_types_with(ts, Ghost(fuel));
                proof {
                    lemma_machine_tuple_view(cts);
                }
                MachineType::TupleType(TupleType(cts))
            },
            IntermediateType::IntermediateFnType(IntermediateFnType(args, ret)) => {
                proof {
                    lemma_fn_type_view(*args, *ret);
                }
                let cargs = self.compile_types_with(args, Ghost(fuel));
                let cret = self.compile_type_with(ret, Ghost(fuel));
                proof {
                    lemma_machine_fn_view(cargs, Box::new(cret));
                }
                MachineType::FnType(FnType(cargs, Box::new(cret)))
            },
            IntermediateType::IntermediateUnionType(u) => {
                proof {
                    lemma_union_type_view(u.0);
                    lemma_find_union(self@.table, u@);
                }
                let i = match self.find_union_entry(u) {
                    Some(i) => i,
                    None => {
                        proof {
                            assert(false);
                        }
                        0
                    },
                };
                let r = match self.union_ranks[i] {
                    Some(r) => r,
                    None => {
                        proof {
                            lemma_find_union(self@.table, u@);
                            assert(false);
                        }
                        0
                    },
                };
                let names = Self::make_ctor_names(r, u.0.len());
                let res = MachineType::UnionType(UnionType(names));
                proof {
                    lemma_find_union(self@.table, u@);
                    assert(res@ =~= compile_type_fuel(self@.table, type_@, fuel));
                }
                res
            },
            IntermediateType::Reference(j) => {
                match self.union_ranks[*j] {
                    Some(r) => {
                        let mut name = String::new();
                        name.append("T");
                        push_decimal(&mut name, r as u64);
                        MachineType::NamedType(name)
                    },
                    None => {
                        proof {
                            assert(types_view(self.type_table@)[*j as int] == self.type_table@[*j as int]@);
                        }
                        self.compile_type_with(&self.type_table[*j], Ghost((fuel - 1) as nat))
                    },
                }
            },
        }
    }

    /// The machine types of a sequence of intermediate types.
    pub fn compile_types(&self, types: &Vec<IntermediateType>) -> (res: Vec<MachineType>)
        requires
            self.wf(),
            types_compilable(self@.table, types_view(types@)),
        ensures
            machine_types_view(res@) == compile_types_spec(self@.table, types_view(types@)),
    {
        self.compile_types_with(types, Ghost(self@.table.len()))
    }

    fn compile_types_with(&self, types: &Vec<IntermediateType>, Ghost(fuel): Ghost<nat>) -> (res: Vec<MachineType>)
        requires
            self.wf(),
            types_ok_fuel(self@.table, types_view(types@), fuel),
        ensures
            machine_types_view(res@) == compile_types_fuel(self@.table, types_view(types@), fuel),
        decreases fuel, types,
    {
        let ghost ts = types_view(types@);
        let mut out: Vec<MachineType> = Vec::new();
        let mut i: usize = 0;
        while i < types.len()
            invariant
                i <= types.len(),
                self.wf(),
                ts == types_view(types@),
                types_ok_fuel(self@.table, ts, fuel),
                machine_types_view(out@) == compile_types_fuel(self@.table, ts.take(i as int), fuel),
            decreases types.len() - i,
        {
            proof {
                assert(ts.take(i + 1).drop_last() =~= ts.take(i as int));
                lemma_types_ok_fuel(self@.table, ts, i as int, fuel);
                assert(decreases_to!(types => types@[i as int]));
            }
            let ghost before = out@;
            out.push(self.compile_type_with(&types[i], Ghost(fuel)));
            proof {
                assert(machine_types_view(out@) =~= machine_types_view(before).push(compile_type_fuel(self@.table, ts[i as int], fuel)));
            }
            i = i + 1;
        }
        proof {
            assert(ts.take(types.len() as int) =~= ts);
        }
        out
    }
}

/// The union found in a table is a union entry.
proof fn lemma_find_union(table: Seq<TypeModel>, vs: Seq<Option<TypeModel>>)
    ensures
        find_union(table, vs) matches Some(i) ==> 0 <= i < table.len() && table[i] == TypeModel::Union(vs),
    decreases table.len(),
{
    if table.len() > 0 {
        lemma_find_union(table.drop_last(), vs);
    }
}

/// Each element of a compilable sequence of types is compilable.
proof fn lemma_types_ok_fuel(table: Seq<TypeModel>, ts: Seq<TypeModel>, i: int, fuel: nat)
    requires
        types_ok_fuel(table, ts, fuel),
        0 <= i < ts.len(),
    ensures
        type_ok_fuel(table, ts[i], fuel),
    decreases ts.len(),
{
    if i < ts.len() - 1 {
        lemma_types_ok_fuel(table, ts.drop_last(), i, fuel);
    }
}

proof fn lemma_types_compilable(table: Seq<TypeModel>, ts: Seq<TypeModel>, i: int)
    requires
        types_compilable(table, ts),
        0 <= i < ts.len(),
    ensures
        type_compilable(table, ts[i]),
{
    lemma_types_ok_fuel(table, ts, i, table.len());
}

proof fn lemma_union_rank_bound(table: Seq<TypeModel>, i: int)
    requires
        0 <= i <= table.len(),
    ensures
        union_rank(table, i) <= i,
    decreases i,
{
    if i > 0 {
        lemma_union_rank_bound(table, i - 1);
    }
}

impl Compiler {
    /// Records the type table and compiles the definitions of its union types.
    pub fn compile_type_defs(&mut self, types: Vec<IntermediateType>) -> (res: Vec<TypeDef>)
        requires
            old(self).wf(),
            table_compilable(types_view(types@)),
        ensures
            final(self).wf(),
            final(self)@ == (CompilerModel { table: types_view(types@), ..old(self)@ }),
            machine::type_defs_view(res@) == type_defs_spec(types_view(types@)),
    {
        let ghost table = types_view(types@);
        let mut ranks: Vec<Option<usize>> = Vec::new();
        let mut count: usize = 0;
        let mut i: usize = 0;
        while i < types.len()
            invariant
                i <= types.len(),
                table == types_view(types@),
                ranks@.len() == i,
                count == union_rank(table, i as int),
                forall|k: int| 0 <= k < i ==> (#[trigger] ranks@[k]) == if table[k] is Union {
                    Some(#[verifier::truncate] (union_rank(table, k) as usize))
                } else {
                    None::<usize>
                },
            decreases types.len() - i,
        {
            proof {
                lemma_union_rank_bound(table, i as int);
            }
            if let IntermediateType::IntermediateUnionType(_) = &types[i] {
                ranks.push(Some(count));
                count = count + 1;
            } else {
                ranks.push(None);
            }
            i = i + 1;
        }
        self.type_table = types;
        self.union_ranks = ranks;
        proof {
            assert forall|k: int| 0 <= k < self.type_table@.len() implies union_rank(types_view(self.type_table@), k) < usize::MAX by {
                lemma_union_rank_bound(table, k);
            }
        }
        let mut defs: Vec<TypeDef> = Vec::new();
        let mut j: usize = 0;
        while j < self.type_table.len()
            invariant
                j <= self.type_table.len(),
                self.wf(),
                table == types_view(self.type_table@),
                table == self@.table,
                table_compilable(table),
                machine::type_defs_view(defs@) == type_defs_upto(table, j as int),
            decreases self.type_table.len() - j,
        {
            if let IntermediateType::IntermediateUnionType(IntermediateUnionType(vs)) = &self.type_table[j] {
                proof {
                    lemma_union_type_view(*vs);
                }
                let r = match self.union_ranks[j] {
                    Some(r) => r,
                    None => 0,
                };
                let ghost vsm = variants_view(vs@);
                let mut constructors: Vec<(Name, Option<MachineType>)> = Vec::new();
                let mut k: usize = 0;
                while k < vs.len()
                    invariant
                        k <= vs.len(),
                        self.wf(),
                        table == self@.table,
                        table_compilable(table),
                        j < table.len(),
                        table[j as int] == TypeModel::Union(vsm),
                        vsm == variants_view(vs@),
                        r == union_rank(table, j as int),
                        machine::constructors_view(constructors@) == constructors_spec(table, r as nat, vsm.take(k as int)),
                    decreases vs.len() - k,
                {
                    proof {
                        assert(vsm.take(k + 1).drop_last() =~= vsm.take(k as int));
                        assert(vsm.take(k + 1).last() == vsm[k as int]);
                    }
                    let t = match &vs[k] {
                        None => None,
                        Some(t) => {
                            proof {
                                assert(table[j as int]->Union_0[k as int]->0 == t@);
                            }
                            Some(self.compile_type(t))
                        },
                    };
                    let ghost before = constructors@;
                    constructors.push((Self::make_ctor_name(r, k), t));
                    proof {
                        assert(machine::constructors_view(constructors@) =~= machine::constructors_view(before).push(
                            machine::constructor_view(constructors@.last())));
                    }
                    k = k + 1;
                }
                proof {
                    assert(vsm.take(vs.len() as int) =~= vsm);
                }
                let mut name = String::new();
                name.append("T");
                push_decimal(&mut name, r as u64);
                let ghost before = defs@;
                defs.push(TypeDef { name, constructors });
                proof {
                    assert(machine::type_defs_view(defs@) =~= machine::type_defs_view(before).push(defs@.last()@));
                }
            }
            j = j + 1;
        }
        defs
    }
}

// ---------------------------------------------------------------------------
// Locations and values.

/// Compiling a location: a location seen before keeps its memory; a new one
/// gets the next memory name.
pub open spec fn compile_location_spec(c: CompilerModel, l: usize) -> (CompilerModel, Seq<char>) {
    if c.ids.contains_key(l) {
        (c, memory_name(c.ids[l]))
    } else {
        (CompilerModel { ids: c.ids.insert(l, c.next), next: c.next + 1, ..c }, memory_name(c.next))
    }
}

/// A new memory name that no location holds.
pub open spec fn new_memory_spec(c: CompilerModel) -> (CompilerModel, Seq<char>) {
    (CompilerModel { next: c.next + 1, ..c }, memory_name(c.next))
}

/// Whether a value can be compiled: a built-in function is an operator.
pub open spec fn value_compilable(v: ir_model::ValueModel) -> bool {
    match v {
        ir_model::ValueModel::BuiltIn(ir_model::BuiltInModel::Function(name, _, _)) => operator_name(name) is Some,
        _ => true,
    }
}

pub open spec fn values_compilable(vs: Seq<ir_model::ValueModel>) -> bool {
    forall|i: int| 0 <= i < vs.len() ==> value_compilable(#[trigger] vs[i])
}

/// Compiling a value: memory and arguments become named memory, built-in
/// functions become the functions that implement them.
pub open spec fn compile_value_spec(c: CompilerModel, v: ir_model::ValueModel) -> (CompilerModel, machine::ValueModel) {
    match v {
        ir_model::ValueModel::Memory(s) => {
            let (c1, m) = compile_location_spec(c, s.location);
            (c1, machine::ValueModel::Memory(m))
        },
        ir_model::ValueModel::Arg(s) => {
            let (c1, m) = compile_location_spec(c, s.location);
            (c1, machine::ValueModel::Memory(m))
        },
        ir_model::ValueModel::BuiltIn(ir_model::BuiltInModel::Integer(i)) => (c, machine::ValueModel::Integer(i)),
        ir_model::ValueModel::BuiltIn(ir_model::BuiltInModel::Boolean(b)) => (c, machine::ValueModel::Boolean(b)),
        ir_model::ValueModel::BuiltIn(ir_model::BuiltInModel::Function(name, _, _)) =>
            (c, machine::ValueModel::BuiltInFn(operator_name(name)->0)),
    }
}

/// Compiling values in order.
pub open spec fn compile_values_spec(c: CompilerModel, vs: Seq<ir_model::ValueModel>) -> (CompilerModel, Seq<machine::ValueModel>)
    decreases vs.len(),
{
    if vs.len() == 0 {
        (c, Seq::empty())
    } else {
        let (c1, out) = compile_values_spec(c, vs.drop_last());
        let (c2, v) = compile_value_spec(c1, vs.last());
        (c2, out.push(v))
    }
}

/// Whether one state follows another: memory names are only added, and the
/// table of types stays.
pub open spec fn grows(c: CompilerModel, d: CompilerModel) -> bool {
    &&& c.next <= d.next
    &&& c.fresh <= d.fresh
    &&& c.table == d.table
    &&& c.fn_defs.len() <= d.fn_defs.len()
}

proof fn lemma_compile_values_grows(c: CompilerModel, vs: Seq<ir_model::ValueModel>)
    ensures
        grows(c, compile_values_spec(c, vs).0),
        compile_values_spec(c, vs).0.fn_defs == c.fn_defs,
        compile_values_spec(c, vs).0.fresh == c.fresh,
        compile_values_spec(c, vs).1.len() == vs.len(),
    decreases vs.len(),
{
    if vs.len() > 0 {
        lemma_compile_values_grows(c, vs.drop_last());
    }
}

impl Compiler {
    /// The memory of a location: the memory it had, or the next memory name.
    pub fn compile_location(&mut self, location: &Location) -> (res: Memory)
        requires
            old(self).wf(),
            compile_location_spec(old(self)@, location.0).0.next <= usize::MAX,
        ensures
            final(self).wf(),
            (final(self)@, res@) == compile_location_spec(old(self)@, location.0),
    {
        let n = match self.memory_ids.get(&location.0) {
            Some(n) => *n,
            None => {
                let n = self.next_memory;
                self.memory_ids.insert(location.0, n);
                self.next_memory = self.next_memory + 1;
                n
            },
        };
        let mut name = String::new();
        name.append("m");
        push_decimal(&mut name, n as u64);
        proof {
            assert(self@.ids =~= compile_location_spec(old(self)@, location.0).0.ids);
        }
        Memory(name)
    }

    /// A memory name that no location holds.
    pub fn new_memory_location(&mut self) -> (res: Memory)
        requires
            old(self).wf(),
            old(self)@.next < usize::MAX,
        ensures
            final(self).wf(),
            (final(self)@, res@) == new_memory_spec(old(self)@),
    {
        let n = self.next_memory;
        self.next_memory = self.next_memory + 1;
        let mut name = String::new();
        name.append("m");
        push_decimal(&mut name, n as u64);
        Memory(name)
    }

    /// The machine value of an intermediate value.
    pub fn compile_value(&mut self, value: &IntermediateValue) -> (res: Value)
        requires
            old(self).wf(),
            value_compilable(value@),
            compile_value_spec(old(self)@, value@).0.next <= usize::MAX,
        ensures
            final(self).wf(),
            (final(self)@, res@) == compile_value_spec(old(self)@, value@),
    {
        match value {
            IntermediateValue::IntermediateArg(a) => Value::Memory(self.compile_location(&a.location)),
            IntermediateValue::IntermediateMemory(m) => Value::Memory(self.compile_location(&m.location)),
            IntermediateValue::IntermediateBuiltIn(b) => match b {
                IntermediateBuiltIn::Boolean(x) => Value::BuiltIn(BuiltIn::Boolean(*x)),
                IntermediateBuiltIn::Integer(x) => Value::BuiltIn(BuiltIn::Integer(*x)),
                IntermediateBuiltIn::BuiltInFn(BuiltInFn(name, _)) => {
                    let f = match operator_function_name(name) {
                        Some(f) => f,
                        None => {
                            proof {
                                assert(false);
                            }
                            String::new()
                        },
                    };
                    Value::BuiltIn(BuiltIn::BuiltInFn(f))
                },
            },
        }
    }

    /// The machine values of intermediate values, in order.
    pub fn compile_values(&mut self, values: &Vec<IntermediateValue>) -> (res: Vec<Value>)
        requires
            old(self).wf(),
            values_compilable(crate::intermediate::values_view(values@)),
            compile_values_spec(old(self)@, crate::intermediate::values_view(values@)).0.next <= usize::MAX,
        ensures
            final(self).wf(),
            (final(self)@, machine::values_view(res@)) == compile_values_spec(old(self)@, crate::intermediate::values_view(values@)),
    {
        let ghost vs = crate::intermediate::values_view(values@);
        let ghost c0 = self@;
        let mut out: Vec<Value> = Vec::new();
        let mut i: usize = 0;
        proof {
            assert(vs.take(0) =~= Seq::<ir_model::ValueModel>::empty());
        }
        while i < values.len()
            invariant
                i <= values.len(),
                self.wf(),
                vs == crate::intermediate::values_view(values@),
                values_compilable(vs),
                compile_values_spec(c0, vs).0.next <= usize::MAX,
                (self@, machine::values_view(out@)) == compile_values_spec(c0, vs.take(i as int)),
            decreases values.len() - i,
        {
            proof {
                assert(vs.take(i + 1).drop_last() =~= vs.take(i as int));
                assert(vs.take(i + 1).last() == vs[i as int]);
                lemma_compile_values_prefix_grows(c0, vs, i + 1);
            }
            let v = self.compile_value(&values[i]);
            let ghost before = out@;
            out.push(v);
            proof {
                assert(machine::values_view(out@) =~= machine::values_view(before).push(v@));
            }
            i = i + 1;
        }
        proof {
            assert(vs.take(values.len() as int) =~= vs);
        }
        out
    }
}

/// Compiling a prefix of values names no more memory than compiling all of them.
proof fn lemma_compile_values_prefix_grows(c: CompilerModel, vs: Seq<ir_model::ValueModel>, i: int)
    requires
        0 <= i <= vs.len(),
    ensures
        grows(compile_values_spec(c, vs.take(i)).0, compile_values_spec(c, vs).0),
    decreases vs.len(),
{
    if i == vs.len() {
        assert(vs.take(i) =~= vs);
    } else {
        lemma_compile_values_prefix_grows(c, vs.drop_last(), i);
        assert(vs.drop_last().take(i) =~= vs.take(i));
        let mid = compile_values_spec(c, vs.drop_last()).0;
        lemma_compile_values_grows(c, vs.drop_last());
    }
}

// ---------------------------------------------------------------------------
// Sizes, which renaming keeps and which the compilation recurses on.

pub open spec fn esize(e: ir_model::ExpressionModel) -> nat
    decreases e,
{
    match e {
        ir_model::ExpressionModel::Lambda(l) => 1 + bsize(l.block),
        ir_model::ExpressionModel::If(_, t, f) => 1 + bsize(t) + bsize(f),
        ir_model::ExpressionModel::Match(_, bs) => 1 + brsize(bs),
        _ => 1,
    }
}

pub open spec fn bsize(b: ir_model::BlockModel) -> nat
    decreases b,
{
    1 + stsize(b.statements)
}

pub open spec fn stsize(st: Seq<ir_model::AssignmentModel>) -> nat
    decreases st,
{
    if st.len() == 0 {
        0
    } else {
        stsize(st.drop_last()) + 1 + esize(st.last().expression)
    }
}

pub open spec fn brsize(bs: Seq<ir_model::BranchModel>) -> nat
    decreases bs,
{
    if bs.len() == 0 {
        0
    } else {
        brsize(bs.drop_last()) + 1 + bsize(bs.last().block)
    }
}

pub proof fn lemma_esize_subst(e: ir_model::ExpressionModel, s: Map<usize, usize>)
    ensures
        esize(ir_model::subst_expression(e, s)) == esize(e),
    decreases e,
{
    match e {
        ir_model::ExpressionModel::Lambda(l) => {
            lemma_stsize_subst(l.block.statements, s);
        },
        ir_model::ExpressionModel::If(_, t, f) => {
            lemma_stsize_subst(t.statements, s);
            lemma_stsize_subst(f.statements, s);
        },
        ir_model::ExpressionModel::Match(v, bs) => {
            lemma_brsize_subst(bs, s);
            let sbs = ir_model::subst_expression(e, s)->Match_1;
            assert(sbs =~= subst_branches_seq(bs, s));
        },
        _ => {},
    }
}

pub open spec fn subst_branches_seq(bs: Seq<ir_model::BranchModel>, s: Map<usize, usize>) -> Seq<ir_model::BranchModel> {
    Seq::new(bs.len(), |i: int| ir_model::BranchModel { target: bs[i].target, block: ir_model::subst_block(bs[i].block, s) })
}

pub proof fn lemma_stsize_subst(st: Seq<ir_model::AssignmentModel>, s: Map<usize, usize>)
    ensures
        stsize(ir_model::subst_statements(st, s)) == stsize(st),
    decreases st,
{
    if st.len() > 0 {
        lemma_stsize_subst(st.drop_last(), s);
        lemma_esize_subst(st.last().expression, s);
        assert(ir_model::subst_statements(st, s).drop_last() =~= ir_model::subst_statements(st.drop_last(), s));
    }
}

pub proof fn lemma_brsize_subst(bs: Seq<ir_model::BranchModel>, s: Map<usize, usize>)
    ensures
        brsize(subst_branches_seq(bs, s)) == brsize(bs),
    decreases bs,
{
    if bs.len() > 0 {
        lemma_brsize_subst(bs.drop_last(), s);
        lemma_stsize_subst(bs.last().block.statements, s);
        assert(subst_branches_seq(bs, s).drop_last() =~= subst_branches_seq(bs.drop_last(), s));
        assert(subst_branches_seq(bs, s).last().block == ir_model::subst_block(bs.last().block, s));
        assert(bsize(ir_model::subst_block(bs.last().block, s)) == bsize(bs.last().block));
    }
}

// ---------------------------------------------------------------------------
// Compilation of expressions, statements, blocks and lambdas.

/// A declaration: the type and the memory declared.
pub type DeclarationModel = (MachineTypeModel, Seq<char>);

/// A wait for a value that is held in memory.
pub open spec fn await_if_memory(v: machine::ValueModel) -> Seq<machine::StatementModel> {
    match v {
        machine::ValueModel::Memory(m) => seq![machine::StatementModel::Await(seq![m])],
        _ => Seq::empty(),
    }
}

/// An assignment of a value to a memory location.
pub open spec fn assign_value(m: Seq<char>, v: machine::ValueModel) -> machine::StatementModel {
    machine::StatementModel::Assignment(m, machine::ExpressionModel::Value(v))
}

/// The number of the definition of a union type.
pub open spec fn union_number(table: Seq<TypeModel>, vs: Seq<Option<TypeModel>>) -> nat {
    union_rank(table, find_union(table, vs)->0)
}

/// Compiling an expression: the statements that precede it, the machine
/// expression, and the declarations of memory that calls fill.
pub open spec fn compile_expression_spec(c: CompilerModel, e: ir_model::ExpressionModel)
    -> (CompilerModel, (Seq<machine::StatementModel>, machine::ExpressionModel, Seq<DeclarationModel>))
    decreases esize(e), 1nat,
{
    match e {
        ir_model::ExpressionModel::Tuple(vs) => {
            let (c1, mvs) = compile_values_spec(c, vs);
            (c1, (Seq::empty(), machine::ExpressionModel::Tuple(mvs), Seq::empty()))
        },
        ir_model::ExpressionModel::ElementAccess(v, idx) => {
            let (c1, mv) = compile_value_spec(c, v);
            (c1, (Seq::empty(), machine::ExpressionModel::ElementAccess(mv, idx), Seq::empty()))
        },
        ir_model::ExpressionModel::FnCall(f, args) => {
            let ft = compile_type_spec(c.table, ir_model::value_type(f));
            let (c1, fv) = compile_value_spec(c, f);
            let (c2, avs) = compile_values_spec(c1, args);
            (c2, (await_if_memory(fv), machine::ExpressionModel::FnCall(fv, ft, avs), Seq::empty()))
        },
        ir_model::ExpressionModel::CtorCall(idx, d, variants) => {
            let r = union_number(c.table, variants);
            match d {
                None => (c, (Seq::empty(), machine::ExpressionModel::ConstructorCall(type_def_name(r), idx, None), Seq::empty())),
                Some(v) => {
                    let (c1, mv) = compile_value_spec(c, v);
                    (c1, (Seq::empty(), machine::ExpressionModel::ConstructorCall(
                        type_def_name(r),
                        idx,
                        Some((ctor_name(r, idx as nat), mv)),
                    ), Seq::empty()))
                },
            }
        },
        ir_model::ExpressionModel::Value(v) => {
            let (c1, mv) = compile_value_spec(c, v);
            (c1, (Seq::empty(), machine::ExpressionModel::Value(mv), Seq::empty()))
        },
        ir_model::ExpressionModel::Lambda(l) => {
            let (c1, (st, name, env)) = compile_lambda_spec(c, l);
            (c1, (st, machine::ExpressionModel::ClosureInstantiation(name, env), Seq::empty()))
        },
        ir_model::ExpressionModel::If(cond, t, f) => compile_if_spec(c, cond, t, f),
        ir_model::ExpressionModel::Match(subject, bs) => compile_match_spec(c, subject, bs),
    }
}

/// Compiling a conditional: its result goes to a new memory that each branch assigns.
pub open spec fn compile_if_spec(c: CompilerModel, cond: ir_model::ValueModel, t: ir_model::BlockModel, f: ir_model::BlockModel)
    -> (CompilerModel, (Seq<machine::StatementModel>, machine::ExpressionModel, Seq<DeclarationModel>))
    decreases 1 + bsize(t) + bsize(f), 0nat,
{
    let (c1, cv) = compile_value_spec(c, cond);
    let (c2, mem) = new_memory_spec(c1);
    let decl = machine::StatementModel::Declaration(compile_type_spec(c.table, ir_model::block_type(t)), mem);
    let (c3, (ts, tv, ta)) = compile_block_spec(c2, t);
    let (c4, (fs, fv, fa)) = compile_block_spec(c3, f);
    (c4, (
        await_if_memory(cv).push(decl).push(machine::StatementModel::If(
            cv,
            ts.push(assign_value(mem, tv)),
            fs.push(assign_value(mem, fv)),
        )),
        machine::ExpressionModel::Value(machine::ValueModel::Memory(mem)),
        ta + fa,
    ))
}

/// Compiling a match: its result goes to a new memory that each branch
/// assigns, and the subject is examined in a further new memory.
pub open spec fn compile_match_spec(c: CompilerModel, subject: ir_model::ValueModel, bs: Seq<ir_model::BranchModel>)
    -> (CompilerModel, (Seq<machine::StatementModel>, machine::ExpressionModel, Seq<DeclarationModel>))
    decreases 1 + brsize(bs), 0nat,
{
    let names = compile_type_spec(c.table, ir_model::value_type(subject))->Union_0;
    let (c1, sv) = compile_value_spec(c, subject);
    let (c2, mem) = new_memory_spec(c1);
    let decl = machine::StatementModel::Declaration(compile_type_spec(c.table, ir_model::block_type(bs[0].block)), mem);
    let (c3, (mbs, decls)) = compile_branches_spec(c2, bs, mem);
    let (c4, aux) = new_memory_spec(c3);
    (c4, (
        await_if_memory(sv).push(decl).push(machine::StatementModel::Match(sv, names, mbs, aux)),
        machine::ExpressionModel::Value(machine::ValueModel::Memory(mem)),
        decls,
    ))
}

/// Compiling the branches of a match whose result goes to `mem`: each branch's
/// block, then the memory of its target.
pub open spec fn compile_branches_spec(c: CompilerModel, bs: Seq<ir_model::BranchModel>, mem: Seq<char>)
    -> (CompilerModel, (Seq<(Option<Seq<char>>, Seq<machine::StatementModel>)>, Seq<DeclarationModel>))
    decreases brsize(bs), 1nat,
{
    if bs.len() == 0 {
        (c, (Seq::empty(), Seq::empty()))
    } else {
        let (c1, (done, decls)) = compile_branches_spec(c, bs.drop_last(), mem);
        let b = bs.last();
        let (c2, (st, v, a)) = compile_block_spec(c1, b.block);
        let (c3, target) = match b.target {
            None => (c2, None),
            Some(slot) => {
                let (c3, m) = compile_location_spec(c2, slot.location);
                (c3, Some(m))
            },
        };
        (c3, (done.push((target, st.push(assign_value(mem, v)))), decls + a))
    }
}

/// Compiling a block: its statements, its returned value and its declarations.
pub open spec fn compile_block_spec(c: CompilerModel, b: ir_model::BlockModel)
    -> (CompilerModel, (Seq<machine::StatementModel>, machine::ValueModel, Seq<DeclarationModel>))
    decreases bsize(b), 1nat,
{
    let (c1, (st, decls)) = compile_statements_spec(c, b.statements);
    let (c2, v) = compile_value_spec(c1, b.ret);
    (c2, (st, v, decls))
}

/// Compiling statements in order.
pub open spec fn compile_statements_spec(c: CompilerModel, st: Seq<ir_model::AssignmentModel>)
    -> (CompilerModel, (Seq<machine::StatementModel>, Seq<DeclarationModel>))
    decreases stsize(st), 1nat,
{
    if st.len() == 0 {
        (c, (Seq::empty(), Seq::empty()))
    } else {
        let (c1, (s1, d1)) = compile_statements_spec(c, st.drop_last());
        let (c2, (s2, d2)) = compile_assignment_spec(c1, st.last());
        (c2, (s1 + s2, d1 + d2))
    }
}

/// Compiling an assignment: the memory of a call's result is declared with
/// the function's allocations; other memory is declared where it is assigned.
pub open spec fn compile_assignment_spec(c: CompilerModel, a: ir_model::AssignmentModel)
    -> (CompilerModel, (Seq<machine::StatementModel>, Seq<DeclarationModel>))
    decreases 1 + esize(a.expression), 0nat,
{
    let t = compile_type_spec(c.table, ir_model::expression_type(a.expression));
    let (c1, (st, value, decls)) = compile_expression_spec(c, a.expression);
    let (c2, mem) = compile_location_spec(c1, a.location);
    if value matches machine::ExpressionModel::FnCall(machine::ValueModel::Memory(_), _, _) {
        (c2, (st.push(machine::StatementModel::Assignment(mem, value)), decls.push((t, mem))))
    } else {
        (c2, (st.push(machine::StatementModel::Declaration(t, mem)).push(machine::StatementModel::Assignment(mem, value)), decls))
    }
}

/// The renaming of the open variables of a lambda to the locations from `fresh` on, in order.
pub open spec fn open_substitution(open: Seq<ir_model::ValueModel>, fresh: nat) -> Map<usize, usize>
    decreases open.len(),
{
    if open.len() == 0 {
        Map::empty()
    } else {
        open_substitution(open.drop_last(), fresh).insert(
            ir_model::value_location(open.last())->0,
            (fresh + open.len() - 1) as usize,
        )
    }
}

/// Compiling the arguments of a lambda: their memory and types, in order.
pub open spec fn compile_args_spec(c: CompilerModel, args: Seq<ir_model::SlotModel>) -> (CompilerModel, Seq<(Seq<char>, MachineTypeModel)>)
    decreases args.len(),
{
    if args.len() == 0 {
        (c, Seq::empty())
    } else {
        let (c1, out) = compile_args_spec(c, args.drop_last());
        let (c2, m) = compile_location_spec(c1, args.last().location);
        (c2, out.push((m, compile_type_spec(c.table, args.last().type_))))
    }
}

/// The statements that load a closure's environment into memory: the `i`-th
/// element goes to the memory of location `fresh + i`.
pub open spec fn closure_prefix_spec(c: CompilerModel, fresh: nat, env: Seq<MachineTypeModel>) -> (CompilerModel, Seq<machine::StatementModel>)
    decreases env.len(),
{
    if env.len() == 0 {
        (c, Seq::empty())
    } else {
        let i = env.len() - 1;
        let (c1, out) = closure_prefix_spec(c, fresh, env.drop_last());
        let (c2, m) = compile_location_spec(c1, (fresh + i) as usize);
        (c2, out.push(machine::StatementModel::Declaration(env[i], m)).push(machine::StatementModel::Assignment(
            m,
            machine::ExpressionModel::ElementAccess(machine::ValueModel::Memory("env"@), i as usize),
        )))
    }
}

/// Compiling a lambda: its open variables are renamed to fresh locations that
/// the closure's environment fills, its body becomes a new function
/// definition, and the statements returned build the environment.
pub open spec fn compile_lambda_spec(c: CompilerModel, l: ir_model::LambdaModel)
    -> (CompilerModel, (Seq<machine::StatementModel>, Seq<char>, Option<machine::ValueModel>))
    decreases 1 + bsize(l.block), 0nat,
{
    let open = ir_model::open_vars(l);
    let sub = open_substitution(open, c.fresh);
    let body = ir_model::subst_block(l.block, sub);
    let c0 = CompilerModel { fresh: c.fresh + open.len(), ..c };
    let env = compile_types_spec(c.table, ir_model::value_types(open));
    let (c1, args) = compile_args_spec(c0, l.args);
    let (c2, prefix) = closure_prefix_spec(c1, c.fresh, env);
    proof {
        lemma_stsize_subst(l.block.statements, sub);
    }
    let (c3, (st, allocations)) = compile_statements_spec(c2, body.statements);
    let ret_type = compile_type_spec(c.table, ir_model::value_type(body.ret));
    let (c4, rv) = compile_value_spec(c3, body.ret);
    let name = fn_name(c4.fn_defs.len());
    let fd = FnDefModel {
        name,
        arguments: args,
        statements: prefix + st,
        ret: (rv, ret_type),
        env,
        allocations,
        size_bounds: (0, 0),
        is_recursive: false,
    };
    let c5 = CompilerModel { fn_defs: c4.fn_defs.push(fd), ..c4 };
    if open.len() > 0 {
        let (c6, tuple_mem) = new_memory_spec(c5);
        let (c7, values) = compile_values_spec(c6, open);
        (c7, (
            seq![
                machine::StatementModel::Declaration(MachineTypeModel::Tuple(env), tuple_mem),
                machine::StatementModel::Assignment(tuple_mem, machine::ExpressionModel::Tuple(values)),
            ],
            name,
            Some(machine::ValueModel::Memory(tuple_mem)),
        ))
    } else {
        (c5, (Seq::empty(), name, None))
    }
}

// ---------------------------------------------------------------------------
// Compilation only adds memory names, locations and function definitions.

pub proof fn lemma_value_grows(c: CompilerModel, v: ir_model::ValueModel)
    ensures
        grows(c, compile_value_spec(c, v).0),
        compile_value_spec(c, v).0.fn_defs == c.fn_defs,
        compile_value_spec(c, v).0.fresh == c.fresh,
{
}

proof fn lemma_args_grows(c: CompilerModel, args: Seq<ir_model::SlotModel>)
    ensures
        grows(c, compile_args_spec(c, args).0),
        compile_args_spec(c, args).0.fn_defs == c.fn_defs,
        compile_args_spec(c, args).1.len() == args.len(),
    decreases args.len(),
{
    if args.len() > 0 {
        lemma_args_grows(c, args.drop_last());
    }
}

proof fn lemma_prefix_grows(c: CompilerModel, fresh: nat, env: Seq<MachineTypeModel>)
    ensures
        grows(c, closure_prefix_spec(c, fresh, env).0),
        closure_prefix_spec(c, fresh, env).0.fn_defs == c.fn_defs,
    decreases env.len(),
{
    if env.len() > 0 {
        lemma_prefix_grows(c, fresh, env.drop_last());
    }
}

pub proof fn lemma_expression_grows(c: CompilerModel, e: ir_model::ExpressionModel)
    ensures
        grows(c, compile_expression_spec(c, e).0),
    decreases esize(e), 1nat,
{
    match e {
        ir_model::ExpressionModel::Tuple(vs) => lemma_compile_values_grows(c, vs),
        ir_model::ExpressionModel::FnCall(f, args) => {
            lemma_compile_values_grows(compile_value_spec(c, f).0, args);
        },
        ir_model::ExpressionModel::Lambda(l) => lemma_lambda_grows(c, l),
        ir_model::ExpressionModel::If(cond, t, f) => lemma_if_grows(c, cond, t, f),
        ir_model::ExpressionModel::Match(subject, bs) => lemma_match_grows(c, subject, bs),
        _ => {},
    }
}

pub proof fn lemma_if_grows(c: CompilerModel, cond: ir_model::ValueModel, t: ir_model::BlockModel, f: ir_model::BlockModel)
    ensures
        grows(c, compile_if_spec(c, cond, t, f).0),
    decreases 1 + bsize(t) + bsize(f), 0nat,
{
    let c2 = new_memory_spec(compile_value_spec(c, cond).0).0;
    lemma_block_grows(c2, t);
    lemma_block_grows(compile_block_spec(c2, t).0, f);
}

pub proof fn lemma_match_grows(c: CompilerModel, subject: ir_model::ValueModel, bs: Seq<ir_model::BranchModel>)
    ensures
        grows(c, compile_match_spec(c, subject, bs).0),
    decreases 1 + brsize(bs), 0nat,
{
    let (c2, mem) = new_memory_spec(compile_value_spec(c, subject).0);
    lemma_branches_grows(c2, bs, mem);
}

pub proof fn lemma_branches_grows(c: CompilerModel, bs: Seq<ir_model::BranchModel>, mem: Seq<char>)
    ensures
        grows(c, compile_branches_spec(c, bs, mem).0),
        compile_branches_spec(c, bs, mem).1.0.len() == bs.len(),
    decreases brsize(bs), 1nat,
{
    if bs.len() > 0 {
        lemma_branches_grows(c, bs.drop_last(), mem);
        let c1 = compile_branches_spec(c, bs.drop_last(), mem).0;
        lemma_block_grows(c1, bs.last().block);
    }
}

pub proof fn lemma_block_grows(c: CompilerModel, b: ir_model::BlockModel)
    ensures
        grows(c, compile_block_spec(c, b).0),
    decreases bsize(b), 1nat,
{
    lemma_statements_grows(c, b.statements);
}

pub proof fn lemma_statements_grows(c: CompilerModel, st: Seq<ir_model::AssignmentModel>)
    ensures
        grows(c, compile_statements_spec(c, st).0),
    decreases stsize(st), 1nat,
{
    if st.len() > 0 {
        lemma_statements_grows(c, st.drop_last());
        lemma_assignment_grows(compile_statements_spec(c, st.drop_last()).0, st.last());
    }
}

pub proof fn lemma_assignment_grows(c: CompilerModel, a: ir_model::AssignmentModel)
    ensures
        grows(c, compile_assignment_spec(c, a).0),
    decreases 1 + esize(a.expression), 0nat,
{
    lemma_expression_grows(c, a.expression);
}

pub proof fn lemma_lambda_grows(c: CompilerModel, l: ir_model::LambdaModel)
    ensures
        grows(c, compile_lambda_spec(c, l).0),
        compile_lambda_spec(c, l).0.fn_defs.len() > c.fn_defs.len(),
    decreases 1 + bsize(l.block), 0nat,
{
    let open = ir_model::open_vars(l);
    let sub = open_substitution(open, c.fresh);
    let body = ir_model::subst_block(l.block, sub);
    let c0 = CompilerModel { fresh: c.fresh + open.len(), ..c };
    let env = compile_types_spec(c.table, ir_model::value_types(open));
    lemma_args_grows(c0, l.args);
    let c1 = compile_args_spec(c0, l.args).0;
    lemma_prefix_grows(c1, c.fresh, env);
    let c2 = closure_prefix_spec(c1, c.fresh, env).0;
    lemma_stsize_subst(l.block.statements, sub);
    lemma_statements_grows(c2, body.statements);
    let c3 = compile_statements_spec(c2, body.statements).0;
    lemma_value_grows(c3, body.ret);
    let c4 = compile_value_spec(c3, body.ret).0;
    if open.len() > 0 {
        let c5 = CompilerModel { fn_defs: c4.fn_defs.push(FnDefModel {
            name: fn_name(c4.fn_defs.len()),
            arguments: compile_args_spec(c0, l.args).1,
            statements: closure_prefix_spec(c1, c.fresh, env).1 + compile_statements_spec(c2, body.statements).1.0,
            ret: (compile_value_spec(c3, body.ret).1, compile_type_spec(c.table, ir_model::value_type(body.ret))),
            env,
            allocations: compile_statements_spec(c2, body.statements).1.1,
            size_bounds: (0, 0),
            is_recursive: false,
        }), ..c4 };
        lemma_compile_values_grows(new_memory_spec(c5).0, open);
    }
}

// ---------------------------------------------------------------------------
// Which programs compile.

/// Whether a value can be compiled against a type table.
pub open spec fn value_ok(table: Seq<TypeModel>, v: ir_model::ValueModel) -> bool {
    value_compilable(v) && type_compilable(table, ir_model::value_type(v))
}

pub open spec fn values_ok(table: Seq<TypeModel>, vs: Seq<ir_model::ValueModel>) -> bool {
    forall|i: int| 0 <= i < vs.len() ==> value_ok(table, #[trigger] vs[i])
}

/// Whether an expression can be compiled against a type table: every value is
/// an operator or has a compilable type, calls call functions, element
/// accesses address tuples, constructors with data exist, and matches examine
/// union types in at least one branch.
pub open spec fn expr_ok(table: Seq<TypeModel>, e: ir_model::ExpressionModel) -> bool
    decreases e,
{
    match e {
        ir_model::ExpressionModel::Value(v) => value_ok(table, v),
        ir_model::ExpressionModel::ElementAccess(v, i) => value_ok(table, v) && ir_model::element_access_ok(v, i),
        ir_model::ExpressionModel::Tuple(vs) => values_ok(table, vs),
        ir_model::ExpressionModel::FnCall(f, args) => value_ok(table, f) && ir_model::value_type(f) is Function
            && values_ok(table, args),
        ir_model::ExpressionModel::CtorCall(idx, d, variants) => type_compilable(table, TypeModel::Union(variants))
            && (d is Some ==> value_ok(table, d->0) && idx < variants.len()),
        ir_model::ExpressionModel::Lambda(l) => lambda_ok(table, l),
        ir_model::ExpressionModel::If(c, t, f) => value_ok(table, c) && block_ok(table, t) && block_ok(table, f),
        ir_model::ExpressionModel::Match(v, bs) => value_ok(table, v) && ir_model::value_type(v) is Union && bs.len() > 0
            && branches_ok(table, bs),
    }
}

pub open spec fn lambda_ok(table: Seq<TypeModel>, l: ir_model::LambdaModel) -> bool
    decreases l,
{
    (forall|i: int| 0 <= i < l.args.len() ==> type_compilable(table, (#[trigger] l.args[i]).type_))
        && block_ok(table, l.block)
}

pub open spec fn block_ok(table: Seq<TypeModel>, b: ir_model::BlockModel) -> bool
    decreases b,
{
    statements_ok(table, b.statements) && value_ok(table, b.ret)
}

pub open spec fn statements_ok(table: Seq<TypeModel>, st: Seq<ir_model::AssignmentModel>) -> bool
    decreases st,
{
    forall|i: int| 0 <= i < st.len() ==> expr_ok(table, (#[trigger] st[i]).expression)
}

pub open spec fn branches_ok(table: Seq<TypeModel>, bs: Seq<ir_model::BranchModel>) -> bool
    decreases bs,
{
    forall|i: int| 0 <= i < bs.len() ==> block_ok(table, (#[trigger] bs[i]).block)
        && (bs[i].target is Some ==> type_compilable(table, bs[i].target->0.type_))
}

proof fn lemma_values_ok_filter(table: Seq<TypeModel>, vs: Seq<ir_model::ValueModel>, p: spec_fn(ir_model::ValueModel) -> bool)
    requires
        values_ok(table, vs),
    ensures
        values_ok(table, vs.filter(p)),
    decreases vs.len(),
{
    reveal(Seq::filter);
    if vs.len() > 0 {
        lemma_values_ok_filter(table, vs.drop_last(), p);
        let rest = vs.drop_last().filter(p);
        assert(vs.filter(p) == if p(vs.last()) { rest.push(vs.last()) } else { rest });
    }
}

proof fn lemma_values_ok_unique(table: Seq<TypeModel>, vs: Seq<ir_model::ValueModel>)
    requires
        values_ok(table, vs),
    ensures
        values_ok(table, ir_model::unique_values(vs)),
    decreases vs.len(),
{
    if vs.len() > 0 {
        lemma_values_ok_unique(table, vs.drop_last());
    }
}

proof fn lemma_values_ok_concat(table: Seq<TypeModel>, a: Seq<ir_model::ValueModel>, b: Seq<ir_model::ValueModel>)
    requires
        values_ok(table, a),
        values_ok(table, b),
    ensures
        values_ok(table, a + b),
{
    assert forall|i: int| 0 <= i < (a + b).len() implies value_ok(table, #[trigger] (a + b)[i]) by {
        if i < a.len() {
            assert((a + b)[i] == a[i]);
        } else {
            assert((a + b)[i] == b[i - a.len()]);
        }
    }
}

/// The values that a compilable expression uses can be compiled.
pub proof fn lemma_expression_values_ok(table: Seq<TypeModel>, e: ir_model::ExpressionModel)
    requires
        expr_ok(table, e),
    ensures
        values_ok(table, ir_model::expression_values(e)),
    decreases e,
{
    match e {
        ir_model::ExpressionModel::FnCall(f, args) => {
            assert(values_ok(table, args.push(f)));
        },
        ir_model::ExpressionModel::Lambda(l) => {
            lemma_open_vars_ok(table, l);
        },
        ir_model::ExpressionModel::If(c, t, f) => {
            lemma_block_values_ok(table, t);
            lemma_block_values_ok(table, f);
            lemma_values_ok_concat(table, ir_model::block_values(t), ir_model::block_values(f));
        },
        ir_model::ExpressionModel::Match(v, bs) => {
            lemma_branches_values_ok(table, bs);
        },
        _ => {},
    }
}

pub proof fn lemma_open_vars_ok(table: Seq<TypeModel>, l: ir_model::LambdaModel)
    requires
        lambda_ok(table, l),
    ensures
        values_ok(table, ir_model::open_vars(l)),
    decreases l,
{
    lemma_block_values_ok(table, l.block);
    lemma_values_ok_filter(table, ir_model::block_values(l.block), ir_model::open_in(l));
    lemma_values_ok_unique(table, ir_model::block_values(l.block).filter(ir_model::open_in(l)));
}

pub proof fn lemma_block_values_ok(table: Seq<TypeModel>, b: ir_model::BlockModel)
    requires
        block_ok(table, b),
    ensures
        values_ok(table, ir_model::block_values(b)),
    decreases b,
{
    lemma_statements_values_ok(table, b.statements);
}

pub proof fn lemma_statements_values_ok(table: Seq<TypeModel>, st: Seq<ir_model::AssignmentModel>)
    requires
        statements_ok(table, st),
    ensures
        values_ok(table, ir_model::statements_values(st)),
    decreases st,
{
    if st.len() > 0 {
        lemma_statements_values_ok(table, st.drop_last());
        assert(expr_ok(table, st[st.len() - 1].expression));
        lemma_expression_values_ok(table, st.last().expression);
        lemma_values_ok_concat(table, ir_model::statements_values(st.drop_last()), ir_model::expression_values(st.last().expression));
    }
}

pub proof fn lemma_branches_values_ok(table: Seq<TypeModel>, bs: Seq<ir_model::BranchModel>)
    requires
        branches_ok(table, bs),
    ensures
        values_ok(table, ir_model::branches_values(bs)),
    decreases bs,
{
    if bs.len() > 0 {
        lemma_branches_values_ok(table, bs.drop_last());
        assert(block_ok(table, bs[bs.len() - 1].block));
        lemma_block_values_ok(table, bs.last().block);
        lemma_values_ok_filter(table, ir_model::block_values(bs.last().block), ir_model::not_branch_target(bs.last().target));
        lemma_values_ok_concat(table, ir_model::branches_values(bs.drop_last()),
            ir_model::block_values(bs.last().block).filter(ir_model::not_branch_target(bs.last().target)));
    }
}

/// Renaming locations keeps an expression compilable.
pub proof fn lemma_expr_ok_subst(table: Seq<TypeModel>, e: ir_model::ExpressionModel, s: Map<usize, usize>)
    requires
        expr_ok(table, e),
    ensures
        expr_ok(table, ir_model::subst_expression(e, s)),
    decreases e,
{
    match e {
        ir_model::ExpressionModel::Tuple(vs) => {
            assert(values_ok(table, ir_model::subst_values(vs, s)));
        },
        ir_model::ExpressionModel::FnCall(f, args) => {
            assert(values_ok(table, ir_model::subst_values(args, s)));
        },
        ir_model::ExpressionModel::Lambda(l) => {
            lemma_block_ok_subst(table, l.block, s);
        },
        ir_model::ExpressionModel::If(c, t, f) => {
            lemma_block_ok_subst(table, t, s);
            lemma_block_ok_subst(table, f, s);
        },
        ir_model::ExpressionModel::Match(v, bs) => {
            let sbs = ir_model::subst_expression(e, s)->Match_1;
            assert forall|i: int| 0 <= i < sbs.len() implies block_ok(table, (#[trigger] sbs[i]).block)
                && (sbs[i].target is Some ==> type_compilable(table, sbs[i].target->0.type_)) by {
                assert(block_ok(table, bs[i].block));
                lemma_block_ok_subst(table, bs[i].block, s);
            }
        },
        _ => {},
    }
}

pub proof fn lemma_block_ok_subst(table: Seq<TypeModel>, b: ir_model::BlockModel, s: Map<usize, usize>)
    requires
        block_ok(table, b),
    ensures
        block_ok(table, ir_model::subst_block(b, s)),
    decreases b,
{
    let sb = ir_model::subst_block(b, s);
    assert forall|i: int| 0 <= i < sb.statements.len() implies expr_ok(table, (#[trigger] sb.statements[i]).expression) by {
        assert(expr_ok(table, b.statements[i].expression));
        lemma_expr_ok_subst(table, b.statements[i].expression, s);
    }
}

// ---------------------------------------------------------------------------
// The compilation of expressions, statements, blocks and lambdas.

/// Whether the counters of a state fit in machine words.
pub open spec fn fits(c: CompilerModel) -> bool {
    c.next <= usize::MAX && c.fresh <= usize::MAX
}

pub open spec fn declarations_view(ds: Seq<machine::Declaration>) -> Seq<DeclarationModel> {
    ds.map_values(|d: machine::Declaration| (d.type_@, d.memory@))
}

/// A compilable expression has a type, and its type can be compiled.
pub proof fn lemma_expression_type_ok(table: Seq<TypeModel>, e: ir_model::ExpressionModel)
    requires
        expr_ok(table, e),
    ensures
        ir_model::expression_typable(e),
        type_compilable(table, ir_model::expression_type(e)),
{
    match e {
        ir_model::ExpressionModel::ElementAccess(v, i) => {
            let ts = ir_model::value_type(v)->Tuple_0;
            lemma_types_compilable(table, ts, i as int);
        },
        ir_model::ExpressionModel::Tuple(vs) => {
            lemma_types_compilable_forall(table, ir_model::value_types(vs));
        },
        ir_model::ExpressionModel::Lambda(l) => {
            lemma_types_compilable_forall(table, l.args.map_values(|a: ir_model::SlotModel| a.type_));
        },
        ir_model::ExpressionModel::Match(v, bs) => {
            assert(block_ok(table, bs[0].block));
        },
        _ => {},
    }
}

proof fn lemma_types_compilable_forall(table: Seq<TypeModel>, ts: Seq<TypeModel>)
    requires
        forall|i: int| 0 <= i < ts.len() ==> type_compilable(table, #[trigger] ts[i]),
    ensures
        types_compilable(table, ts),
    decreases ts.len(),
{
    if ts.len() > 0 {
        lemma_types_compilable_forall(table, ts.drop_last());
    }
}

impl Compiler {
    /// Compiles statements in order.
    pub fn compile_statements(&mut self, statements: &Vec<crate::intermediate::IntermediateStatement>)
        -> (res: (Vec<machine::Statement>, Vec<machine::Declaration>))
        requires
            old(self).wf(),
            statements_ok(old(self)@.table, crate::intermediate::statements_view(statements@)),
            fits(compile_statements_spec(old(self)@, crate::intermediate::statements_view(statements@)).0),
        ensures
            final(self).wf(),
            (final(self)@, (machine::statements_view(res.0@), declarations_view(res.1@)))
                == compile_statements_spec(old(self)@, crate::intermediate::statements_view(statements@)),
        decreases stsize(crate::intermediate::statements_view(statements@)), 1nat,
    {
        let ghost st = crate::intermediate::statements_view(statements@);
        let ghost c0 = self@;
        let mut out: Vec<machine::Statement> = Vec::new();
        let mut decls: Vec<machine::Declaration> = Vec::new();
        let mut i: usize = 0;
        proof {
            assert(st.take(0) =~= Seq::<ir_model::AssignmentModel>::empty());
            assert(machine::statements_view(out@) =~= Seq::<machine::StatementModel>::empty());
            assert(declarations_view(decls@) =~= Seq::<DeclarationModel>::empty());
        }
        while i < statements.len()
            invariant
                i <= statements.len(),
                self.wf(),
                st == crate::intermediate::statements_view(statements@),
                statements_ok(c0.table, st),
                fits(compile_statements_spec(c0, st).0),
                (self@, (machine::statements_view(out@), declarations_view(decls@))) == compile_statements_spec(c0, st.take(i as int)),
            decreases statements.len() - i,
        {
            proof {
                assert(st.take(i + 1).drop_last() =~= st.take(i as int));
                assert(st.take(i + 1).last() == st[i as int]);
                lemma_statements_prefix_grows(c0, st, i + 1);
                lemma_stsize_prefix(st, i + 1);
                assert(expr_ok(c0.table, st[i as int].expression));
                lemma_statements_grows(c0, st.take(i as int));
            }
            let (mut s1, mut d1) = match &statements[i] {
                crate::intermediate::IntermediateStatement::IntermediateAssignment(a) => self.compile_assignment(a),
            };
            let ghost (o0, e0, s1v, d1v) = (out@, decls@, s1@, d1@);
            out.append(&mut s1);
            decls.append(&mut d1);
            proof {
                assert(machine::statements_view(out@) =~= machine::statements_view(o0) + machine::statements_view(s1v));
                assert(declarations_view(decls@) =~= declarations_view(e0) + declarations_view(d1v));
            }
            i = i + 1;
        }
        proof {
            assert(st.take(statements.len() as int) =~= st);
        }
        (out, decls)
    }

    /// Compiles an assignment.
    pub fn compile_assignment(&mut self, assignment: &crate::intermediate::IntermediateAssignment)
        -> (res: (Vec<machine::Statement>, Vec<machine::Declaration>))
        requires
            old(self).wf(),
            expr_ok(old(self)@.table, assignment@.expression),
            fits(compile_assignment_spec(old(self)@, assignment@).0),
        ensures
            final(self).wf(),
            (final(self)@, (machine::statements_view(res.0@), declarations_view(res.1@)))
                == compile_assignment_spec(old(self)@, assignment@),
        decreases 1 + esize(assignment@.expression), 0nat,
    {
        let ghost c0 = self@;
        proof {
            lemma_expression_type_ok(c0.table, assignment@.expression);
        }
        let ir_type = assignment.expression.type_();
        let type_ = self.compile_type(&ir_type);
        proof {
            let c1 = compile_expression_spec(c0, assignment@.expression).0;
            lemma_expression_grows(c0, assignment@.expression);
        }
        let (mut statements, value, mut declarations) = self.compile_expression(&assignment.expression);
        let memory = self.compile_location(&assignment.location);
        let ghost (s0, d0) = (statements@, declarations@);
        let is_call = match &value {
            machine::Expression::FnCall(call) => match &call.fn_ {
                Value::Memory(_) => true,
                _ => false,
            },
            _ => false,
        };
        if is_call {
            declarations.push(machine::Declaration { memory: memory.clone(), type_ });
            statements.push(machine::Statement::Assignment(machine::Assignment { target: memory, value }));
            proof {
                assert(machine::statements_view(statements@) =~= machine::statements_view(s0).push(statements@.last()@));
                assert(declarations_view(declarations@) =~= declarations_view(d0).push((declarations@.last().type_@, declarations@.last().memory@)));
            }
        } else {
            statements.push(machine::Statement::Declaration(machine::Declaration { type_, memory: memory.clone() }));
            let ghost s1 = statements@;
            statements.push(machine::Statement::Assignment(machine::Assignment { target: memory, value }));
            proof {
                assert(machine::statements_view(s1) =~= machine::statements_view(s0).push(s1.last()@));
                assert(machine::statements_view(statements@) =~= machine::statements_view(s1).push(statements@.last()@));
                assert(declarations_view(declarations@) =~= declarations_view(d0));
            }
        }
        (statements, declarations)
    }

    /// Compiles a block: its statements and its returned value.
    pub fn compile_block(&mut self, block: &crate::intermediate::IntermediateBlock)
        -> (res: (Vec<machine::Statement>, Value, Vec<machine::Declaration>))
        requires
            old(self).wf(),
            block_ok(old(self)@.table, block@),
            fits(compile_block_spec(old(self)@, block@).0),
        ensures
            final(self).wf(),
            (final(self)@, (machine::statements_view(res.0@), res.1@, declarations_view(res.2@)))
                == compile_block_spec(old(self)@, block@),
        decreases bsize(block@), 1nat,
    {
        proof {
            crate::intermediate::lemma_block_view(*block);
            lemma_value_grows(compile_statements_spec(self@, block@.statements).0, block@.ret);
        }
        let (statements, declarations) = self.compile_statements(&block.statements);
        let value = self.compile_value(&block.ret);
        (statements, value, declarations)
    }
}

/// Compiling a prefix of statements ends in a state that compiling all of them grows.
proof fn lemma_statements_prefix_grows(c: CompilerModel, st: Seq<ir_model::AssignmentModel>, i: int)
    requires
        0 <= i <= st.len(),
    ensures
        grows(compile_statements_spec(c, st.take(i)).0, compile_statements_spec(c, st).0),
    decreases st.len(),
{
    if i == st.len() {
        assert(st.take(i) =~= st);
    } else {
        lemma_statements_prefix_grows(c, st.drop_last(), i);
        assert(st.drop_last().take(i) =~= st.take(i));
        lemma_assignment_grows(compile_statements_spec(c, st.drop_last()).0, st.last());
    }
}

pub proof fn lemma_stsize_prefix(st: Seq<ir_model::AssignmentModel>, i: int)
    requires
        0 < i <= st.len(),
    ensures
        1 + esize(st[i - 1].expression) <= stsize(st),
        stsize(st.take(i)) <= stsize(st),
    decreases st.len(),
{
    if i < st.len() {
        lemma_stsize_prefix(st.drop_last(), i);
        assert(st.drop_last().take(i) =~= st.take(i));
    } else {
        assert(st.take(i) =~= st);
    }
}

fn await_statements(v: &Value) -> (res: Vec<machine::Statement>)
    ensures
        machine::statements_view(res@) == await_if_memory(v@),
{
    match v {
        Value::Memory(m) => {
            let ms = vec![m.clone()];
            proof {
                assert(machine::memories_view(ms@) =~= seq![m@]);
            }
            let res = vec![machine::Statement::Await(machine::Await(ms))];
            proof {
                assert(machine::statements_view(res@) =~= await_if_memory(v@));
            }
            res
        },
        _ => {
            let res: Vec<machine::Statement> = Vec::new();
            proof {
                assert(machine::statements_view(res@) =~= await_if_memory(v@));
            }
            res
        },
    }
}

impl Compiler {
    /// The number of the definition of a union type of the table.
    fn union_number_of(&self, u: &IntermediateUnionType) -> (res: usize)
        requires
            self.wf(),
            type_compilable(self@.table, TypeModel::Union(u@)),
        ensures
            res == union_number(self@.table, u@),
    {
        proof {
            lemma_find_union(self@.table, u@);
        }
        let i = match self.find_union_entry(u) {
            Some(i) => i,
            None => 0,
        };
        match self.union_ranks[i] {
            Some(r) => r,
            None => 0,
        }
    }

    /// Compiles an expression: the statements that precede it, the machine
    /// expression and the declarations of memory that calls fill.
    #[verifier::rlimit(60)]
    pub fn compile_expression(&mut self, expression: &crate::intermediate::IntermediateExpression)
        -> (res: (Vec<machine::Statement>, machine::Expression, Vec<machine::Declaration>))
        requires
            old(self).wf(),
            expr_ok(old(self)@.table, expression@),
            fits(compile_expression_spec(old(self)@, expression@).0),
        ensures
            final(self).wf(),
            (final(self)@, (machine::statements_view(res.0@), res.1@, declarations_view(res.2@)))
                == compile_expression_spec(old(self)@, expression@),
        decreases esize(expression@), 1nat,
    {
        let ghost c0 = self@;
        let no_statements: Vec<machine::Statement> = Vec::new();
        let no_declarations: Vec<machine::Declaration> = Vec::new();
        proof {
            assert(machine::statements_view(no_statements@) =~= Seq::<machine::StatementModel>::empty());
            assert(declarations_view(no_declarations@) =~= Seq::<DeclarationModel>::empty());
        }
        match expression {
            crate::intermediate::IntermediateExpression::IntermediateTupleExpression(t) => {
                let values = self.compile_values(&t.0);
                (no_statements, machine::Expression::TupleExpression(machine::TupleExpression(values)), no_declarations)
            },
            crate::intermediate::IntermediateExpression::IntermediateElementAccess(a) => {
                let value = self.compile_value(&a.value);
                (no_statements, machine::Expression::ElementAccess(machine::ElementAccess { value, idx: a.idx }), no_declarations)
            },
            crate::intermediate::IntermediateExpression::IntermediateFnCall(call) => {
                let fn_ir_type = call.fn_.type_();
                let fn_type = match self.compile_type(&fn_ir_type) {
                    MachineType::FnType(f) => f,
                    _ => {
                        proof {
                            assert(false);
                        }
                        FnType(Vec::new(), Box::new(MachineType::AtomicType(AtomicType(AtomicTypeEnum::INT))))
                    },
                };
                proof {
                    lemma_compile_values_grows(compile_value_spec(c0, call.fn_@).0, crate::intermediate::values_view(call.args@));
                }
                let fn_ = self.compile_value(&call.fn_);
                let args = self.compile_values(&call.args);
                let statements = await_statements(&fn_);
                (statements, machine::Expression::FnCall(machine::FnCall { fn_, fn_type, args }), no_declarations)
            },
            crate::intermediate::IntermediateExpression::IntermediateCtorCall(call) => {
                let r = self.union_number_of(&call.type_);
                let mut union_name = String::new();
                union_name.append("T");
                push_decimal(&mut union_name, r as u64);
                let data = match &call.data {
                    None => None,
                    Some(v) => {
                        let value = self.compile_value(v);
                        Some((Self::make_ctor_name(r, call.idx), value))
                    },
                };
                (no_statements, machine::Expression::ConstructorCall(machine::ConstructorCall { type_: union_name, idx: call.idx, data }), no_declarations)
            },
            crate::intermediate::IntermediateExpression::IntermediateValue(v) => {
                let value = self.compile_value(v);
                (no_statements, machine::Expression::Value(value), no_declarations)
            },
            crate::intermediate::IntermediateExpression::IntermediateLambda(l) => {
                let (statements, closure) = self.compile_lambda(l);
                (statements, machine::Expression::ClosureInstantiation(closure), no_declarations)
            },
            crate::intermediate::IntermediateExpression::IntermediateIf(i) => self.compile_if(i),
            crate::intermediate::IntermediateExpression::IntermediateMatch(m) => {
                proof {
                    crate::intermediate::lemma_match_view(*m);
                }
                self.compile_match(m)
            },
        }
    }

    /// Compiles a conditional: each branch assigns a new memory, which holds the result.
    #[verifier::rlimit(80)]
    pub fn compile_if(&mut self, if_: &crate::intermediate::IntermediateIf)
        -> (res: (Vec<machine::Statement>, machine::Expression, Vec<machine::Declaration>))
        requires
            old(self).wf(),
            value_ok(old(self)@.table, if_.condition@),
            block_ok(old(self)@.table, if_.branches.0@),
            block_ok(old(self)@.table, if_.branches.1@),
            fits(compile_if_spec(old(self)@, if_.condition@, if_.branches.0@, if_.branches.1@).0),
        ensures
            final(self).wf(),
            (final(self)@, (machine::statements_view(res.0@), res.1@, declarations_view(res.2@)))
                == compile_if_spec(old(self)@, if_.condition@, if_.branches.0@, if_.branches.1@),
        decreases 1 + bsize(if_.branches.0@) + bsize(if_.branches.1@), 0nat,
    {
        let ghost c0 = self@;
        let ghost (c1, cvm) = compile_value_spec(c0, if_.condition@);
        let ghost (c2, memm) = new_memory_spec(c1);
        let ghost c3 = compile_block_spec(c2, if_.branches.0@).0;
        proof {
            lemma_block_grows(c2, if_.branches.0@);
            lemma_block_grows(c3, if_.branches.1@);
        }
        let condition = self.compile_value(&if_.condition);
        let mut statements = await_statements(&condition);
        let memory = self.new_memory_location();
        let ret_type = if_.branches.0.ret.type_();
        let type_ = self.compile_type(&ret_type);
        let ghost s0 = statements@;
        statements.push(machine::Statement::Declaration(machine::Declaration { memory: memory.clone(), type_ }));
        let (mut true_statements, true_value, true_declarations) = self.compile_block(&if_.branches.0);
        let ghost t0 = true_statements@;
        true_statements.push(machine::Statement::Assignment(machine::Assignment {
            target: memory.clone(),
            value: machine::Expression::Value(true_value),
        }));
        let (mut false_statements, false_value, false_declarations) = self.compile_block(&if_.branches.1);
        let ghost f0 = false_statements@;
        false_statements.push(machine::Statement::Assignment(machine::Assignment {
            target: memory.clone(),
            value: machine::Expression::Value(false_value),
        }));
        let ghost s1 = statements@;
        let if_statement = machine::IfStatement { condition, branches: (true_statements, false_statements) };
        proof {
            machine::lemma_if_view(if_statement);
        }
        statements.push(machine::Statement::IfStatement(if_statement));
        let mut declarations = true_declarations;
        let ghost d0 = declarations@;
        let mut more = false_declarations;
        let ghost m0 = more@;
        declarations.append(&mut more);
        proof {
            assert(machine::statements_view(t0.push(if_statement.branches.0@.last())) =~= machine::statements_view(t0).push(if_statement.branches.0@.last()@));
            assert(if_statement.branches.0@ == t0.push(if_statement.branches.0@.last()));
            assert(machine::statements_view(f0.push(if_statement.branches.1@.last())) =~= machine::statements_view(f0).push(if_statement.branches.1@.last()@));
            assert(if_statement.branches.1@ == f0.push(if_statement.branches.1@.last()));
            assert(machine::statements_view(s1) =~= machine::statements_view(s0).push(s1.last()@));
            assert(machine::statements_view(statements@) =~= machine::statements_view(s1).push(statements@.last()@));
            assert(declarations_view(declarations@) =~= declarations_view(d0) + declarations_view(m0));
        }
        (statements, machine::Expression::Value(Value::Memory(memory)), declarations)
    }
}

pub open spec fn match_branches_view(bs: Seq<machine::MatchBranch>) -> Seq<(Option<Seq<char>>, Seq<machine::StatementModel>)> {
    bs.map_values(|b: machine::MatchBranch| machine::match_branch_view(b))
}

impl Compiler {
    /// Compiles a match: each branch assigns a new memory, which holds the result.
    pub fn compile_match(&mut self, match_: &crate::intermediate::IntermediateMatch)
        -> (res: (Vec<machine::Statement>, machine::Expression, Vec<machine::Declaration>))
        requires
            old(self).wf(),
            value_ok(old(self)@.table, match_.subject@),
            ir_model::value_type(match_.subject@) is Union,
            match_.branches@.len() > 0,
            branches_ok(old(self)@.table, crate::intermediate::branches_view(match_.branches@)),
            fits(compile_match_spec(old(self)@, match_.subject@, crate::intermediate::branches_view(match_.branches@)).0),
        ensures
            final(self).wf(),
            (final(self)@, (machine::statements_view(res.0@), res.1@, declarations_view(res.2@)))
                == compile_match_spec(old(self)@, match_.subject@, crate::intermediate::branches_view(match_.branches@)),
        decreases 1 + brsize(crate::intermediate::branches_view(match_.branches@)), 0nat,
    {
        let ghost c0 = self@;
        let ghost bs = crate::intermediate::branches_view(match_.branches@);
        let ghost (c1, svm) = compile_value_spec(c0, match_.subject@);
        let ghost (c2, memm) = new_memory_spec(c1);
        let ghost c3 = compile_branches_spec(c2, bs, memm).0;
        proof {
            lemma_branches_grows(c2, bs, memm);
            assert(block_ok(c0.table, bs[0].block));
        }
        let subject_type = match_.subject.type_();
        let union_type = match self.compile_type(&subject_type) {
            MachineType::UnionType(u) => u,
            _ => {
                proof {
                    assert(false);
                }
                UnionType(Vec::new())
            },
        };
        let subject = self.compile_value(&match_.subject);
        let mut statements = await_statements(&subject);
        let memory = self.new_memory_location();
        let ret_type = match_.branches[0].block.ret.type_();
        let type_ = self.compile_type(&ret_type);
        let ghost s0 = statements@;
        statements.push(machine::Statement::Declaration(machine::Declaration { memory: memory.clone(), type_ }));
        let (branches, declarations) = self.compile_branches(&match_.branches, &memory);
        let auxiliary_memory = self.new_memory_location();
        let ghost names = union_type.0@;
        let match_statement = machine::MatchStatement { expression: (subject, union_type), branches, auxiliary_memory };
        proof {
            machine::lemma_match_statement_view(match_statement);
            assert(machine::names_view(names) =~= names.map_values(|n: Name| n@));
        }
        let ghost s1 = statements@;
        statements.push(machine::Statement::MatchStatement(match_statement));
        proof {
            assert(machine::statements_view(s1) =~= machine::statements_view(s0).push(s1.last()@));
            assert(machine::statements_view(statements@) =~= machine::statements_view(s1).push(statements@.last()@));
        }
        (statements, machine::Expression::Value(Value::Memory(memory)), declarations)
    }

    /// Compiles the branches of a match whose result goes to `memory`.
    #[verifier::rlimit(60)]
    pub fn compile_branches(&mut self, branches: &Vec<crate::intermediate::IntermediateMatchBranch>, memory: &Memory)
        -> (res: (Vec<machine::MatchBranch>, Vec<machine::Declaration>))
        requires
            old(self).wf(),
            branches_ok(old(self)@.table, crate::intermediate::branches_view(branches@)),
            fits(compile_branches_spec(old(self)@, crate::intermediate::branches_view(branches@), memory@).0),
        ensures
            final(self).wf(),
            (final(self)@, (match_branches_view(res.0@), declarations_view(res.1@)))
                == compile_branches_spec(old(self)@, crate::intermediate::branches_view(branches@), memory@),
        decreases brsize(crate::intermediate::branches_view(branches@)), 1nat,
    {
        let ghost bs = crate::intermediate::branches_view(branches@);
        let ghost c0 = self@;
        let mut out: Vec<machine::MatchBranch> = Vec::new();
        let mut decls: Vec<machine::Declaration> = Vec::new();
        let mut i: usize = 0;
        proof {
            assert(bs.take(0) =~= Seq::<ir_model::BranchModel>::empty());
            assert(match_branches_view(out@) =~= Seq::<(Option<Seq<char>>, Seq<machine::StatementModel>)>::empty());
            assert(declarations_view(decls@) =~= Seq::<DeclarationModel>::empty());
        }
        while i < branches.len()
            invariant
                i <= branches.len(),
                self.wf(),
                bs == crate::intermediate::branches_view(branches@),
                branches_ok(c0.table, bs),
                fits(compile_branches_spec(c0, bs, memory@).0),
                (self@, (match_branches_view(out@), declarations_view(decls@))) == compile_branches_spec(c0, bs.take(i as int), memory@),
            decreases branches.len() - i,
        {
            let ghost ci = self@;
            proof {
                assert(bs.take(i + 1).drop_last() =~= bs.take(i as int));
                assert(bs.take(i + 1).last() == bs[i as int]);
                lemma_branches_prefix_grows(c0, bs, i + 1, memory@);
                lemma_brsize_prefix(bs, i + 1);
                assert(block_ok(c0.table, bs[i as int].block));
                assert(bs[i as int].block == branches@[i as int].block@);
                lemma_branches_grows(c0, bs.take(i as int), memory@);
                lemma_block_grows(ci, bs[i as int].block);
            }
            let branch = &branches[i];
            let (mut statements, value, mut d) = self.compile_block(&branch.block);
            let target = match &branch.target {
                None => None,
                Some(arg) => Some(self.compile_location(&arg.location)),
            };
            let ghost st0 = statements@;
            statements.push(machine::Statement::Assignment(machine::Assignment {
                target: memory.clone(),
                value: machine::Expression::Value(value),
            }));
            let ghost o0 = out@;
            let ghost e0 = decls@;
            let ghost dv = d@;
            let mb = machine::MatchBranch { target, statements };
            proof {
                assert(machine::statements_view(mb.statements@) =~= machine::statements_view(st0).push(mb.statements@.last()@));
            }
            out.push(mb);
            decls.append(&mut d);
            proof {
                assert(match_branches_view(out@) =~= match_branches_view(o0).push(machine::match_branch_view(mb)));
                assert(declarations_view(decls@) =~= declarations_view(e0) + declarations_view(dv));
            }
            i = i + 1;
        }
        proof {
            assert(bs.take(branches.len() as int) =~= bs);
        }
        (out, decls)
    }
}

proof fn lemma_branches_prefix_grows(c: CompilerModel, bs: Seq<ir_model::BranchModel>, i: int, mem: Seq<char>)
    requires
        0 <= i <= bs.len(),
    ensures
        grows(compile_branches_spec(c, bs.take(i), mem).0, compile_branches_spec(c, bs, mem).0),
    decreases bs.len(),
{
    if i == bs.len() {
        assert(bs.take(i) =~= bs);
    } else {
        lemma_branches_prefix_grows(c, bs.drop_last(), i, mem);
        assert(bs.drop_last().take(i) =~= bs.take(i));
        lemma_branches_grows(c, bs, mem);
        let c1 = compile_branches_spec(c, bs.drop_last(), mem).0;
        lemma_block_grows(c1, bs.last().block);
    }
}

pub proof fn lemma_brsize_prefix(bs: Seq<ir_model::BranchModel>, i: int)
    requires
        0 < i <= bs.len(),
    ensures
        1 + bsize(bs[i - 1].block) <= brsize(bs),
    decreases bs.len(),
{
    if i < bs.len() {
        lemma_brsize_prefix(bs.drop_last(), i);
    }
}

/// The open variables of a lambda have locations.
proof fn lemma_open_vars_located(l: ir_model::LambdaModel)
    ensures
        forall|i: int| 0 <= i < ir_model::open_vars(l).len() ==> ir_model::value_location(#[trigger] ir_model::open_vars(l)[i]) is Some,
{
    let xs = ir_model::block_values(l.block).filter(ir_model::open_in(l));
    assert forall|i: int| 0 <= i < xs.len() implies ir_model::value_location(#[trigger] xs[i]) is Some by {
        ir_model::block_values(l.block).lemma_filter_pred(ir_model::open_in(l), i);
    }
    lemma_unique_located(xs);
}

proof fn lemma_unique_located(xs: Seq<ir_model::ValueModel>)
    requires
        forall|i: int| 0 <= i < xs.len() ==> ir_model::value_location(#[trigger] xs[i]) is Some,
    ensures
        forall|i: int| 0 <= i < ir_model::unique_values(xs).len() ==> ir_model::value_location(#[trigger] ir_model::unique_values(xs)[i]) is Some,
    decreases xs.len(),
{
    if xs.len() > 0 {
        lemma_unique_located(xs.drop_last());
    }
}

impl Compiler {
    /// Renames the open variables of a lambda to fresh locations, and returns
    /// each open variable with the location it was renamed to.
    fn replace_open_vars(&mut self, lambda: &mut crate::intermediate::IntermediateLambda) -> (res: Vec<(IntermediateValue, Location)>)
        requires
            old(self).wf(),
            old(self)@.fresh + ir_model::open_vars(old(lambda)@).len() <= usize::MAX,
        ensures
            final(self).wf(),
            final(self)@ == (CompilerModel { fresh: old(self)@.fresh + ir_model::open_vars(old(lambda)@).len(), ..old(self)@ }),
            final(lambda)@.args == old(lambda)@.args,
            final(lambda)@.block == ir_model::subst_block(
                old(lambda)@.block,
                open_substitution(ir_model::open_vars(old(lambda)@), old(self)@.fresh),
            ),
            res@.len() == ir_model::open_vars(old(lambda)@).len(),
            forall|i: int| 0 <= i < res@.len() ==> (#[trigger] res@[i]).0@ == ir_model::open_vars(old(lambda)@)[i]
                && res@[i].1.0 == old(self)@.fresh + i,
    {
        let ghost l0 = lambda@;
        let open = lambda.find_open_vars();
        let ghost ov = crate::intermediate::values_view(open@);
        proof {
            lemma_open_vars_located(l0);
            assert(ov.take(0) =~= Seq::<ir_model::ValueModel>::empty());
        }
        let fresh = self.fresh_location;
        let mut substitution: crate::ir_ops::Substitution = HashMap::new();
        let mut env: Vec<(IntermediateValue, Location)> = Vec::new();
        let mut i: usize = 0;
        proof {
            assert(substitution@ =~= open_substitution(ov.take(0), fresh as nat));
        }
        while i < open.len()
            invariant
                i <= open.len(),
                ov == crate::intermediate::values_view(open@),
                ov == ir_model::open_vars(l0),
                fresh + ov.len() <= usize::MAX,
                forall|k: int| 0 <= k < ov.len() ==> ir_model::value_location(#[trigger] ov[k]) is Some,
                substitution@ == open_substitution(ov.take(i as int), fresh as nat),
                env@.len() == i,
                forall|k: int| 0 <= k < i ==> (#[trigger] env@[k]).0@ == ov[k] && env@[k].1.0 == fresh + k,
            decreases open.len() - i,
        {
            proof {
                assert(ov.take(i + 1).drop_last() =~= ov.take(i as int));
                assert(ov.take(i + 1).last() == ov[i as int]);
                assert(ir_model::value_location(ov[i as int]) is Some);
            }
            let location = match open[i].location() {
                Some(l) => l,
                None => Location(0),
            };
            let target = Location(fresh + i);
            substitution.insert(location.0, target.0);
            env.push((open[i].clone(), target));
            i = i + 1;
        }
        proof {
            assert(ov.take(open.len() as int) =~= ov);
        }
        self.fresh_location = fresh + open.len();
        lambda.substitute(&substitution);
        env
    }

    /// The statements that load the environment of a closure into memory.
    fn closure_prefix(&mut self, env_types: &Vec<(Location, MachineType)>, Ghost(fresh): Ghost<nat>) -> (res: Vec<machine::Statement>)
        requires
            old(self).wf(),
            forall|i: int| 0 <= i < env_types@.len() ==> (#[trigger] env_types@[i]).0.0 == fresh + i,
            fits(closure_prefix_spec(old(self)@, fresh, env_types@.map_values(|e: (Location, MachineType)| e.1@)).0),
        ensures
            final(self).wf(),
            (final(self)@, machine::statements_view(res@))
                == closure_prefix_spec(old(self)@, fresh, env_types@.map_values(|e: (Location, MachineType)| e.1@)),
    {
        let ghost env = env_types@.map_values(|e: (Location, MachineType)| e.1@);
        let ghost c0 = self@;
        let mut out: Vec<machine::Statement> = Vec::new();
        let mut i: usize = 0;
        proof {
            assert(env.take(0) =~= Seq::<MachineTypeModel>::empty());
            assert(machine::statements_view(out@) =~= Seq::<machine::StatementModel>::empty());
        }
        while i < env_types.len()
            invariant
                i <= env_types.len(),
                self.wf(),
                env == env_types@.map_values(|e: (Location, MachineType)| e.1@),
                forall|i: int| 0 <= i < env_types@.len() ==> (#[trigger] env_types@[i]).0.0 == fresh + i,
                fits(closure_prefix_spec(c0, fresh, env).0),
                (self@, machine::statements_view(out@)) == closure_prefix_spec(c0, fresh, env.take(i as int)),
            decreases env_types.len() - i,
        {
            proof {
                assert(env.take(i + 1).drop_last() =~= env.take(i as int));
                assert(env.take(i + 1).last() == env[i as int]);
                lemma_prefix_prefix_grows(c0, fresh, env, i + 1);
            }
            let memory = self.compile_location(&env_types[i].0);
            let ghost o0 = out@;
            out.push(machine::Statement::Declaration(machine::Declaration {
                memory: memory.clone(),
                type_: env_types[i].1.clone(),
            }));
            let ghost o1 = out@;
            out.push(machine::Statement::Assignment(machine::Assignment {
                target: memory,
                value: machine::Expression::ElementAccess(machine::ElementAccess {
                    idx: i,
                    value: Value::Memory(Memory(String::from_str("env"))),
                }),
            }));
            proof {
                assert(machine::statements_view(o1) =~= machine::statements_view(o0).push(o1.last()@));
                assert(machine::statements_view(out@) =~= machine::statements_view(o1).push(out@.last()@));
            }
            i = i + 1;
        }
        proof {
            assert(env.take(env_types.len() as int) =~= env);
        }
        out
    }
}

proof fn lemma_prefix_prefix_grows(c: CompilerModel, fresh: nat, env: Seq<MachineTypeModel>, i: int)
    requires
        0 <= i <= env.len(),
    ensures
        grows(closure_prefix_spec(c, fresh, env.take(i)).0, closure_prefix_spec(c, fresh, env).0),
    decreases env.len(),
{
    if i == env.len() {
        assert(env.take(i) =~= env);
    } else {
        lemma_prefix_prefix_grows(c, fresh, env.drop_last(), i);
        assert(env.drop_last().take(i) =~= env.take(i));
        lemma_prefix_grows(c, fresh, env);
    }
}

impl Compiler {
    /// The types of the environment of a closure, with the locations that hold them.
    fn environment_types(
        &self,
        env_mapping: &Vec<(IntermediateValue, Location)>,
        Ghost(open): Ghost<Seq<ir_model::ValueModel>>,
        Ghost(fresh): Ghost<nat>,
    ) -> (res: (Vec<(Location, MachineType)>, Vec<MachineType>))
        requires
            self.wf(),
            env_mapping@.len() == open.len(),
            forall|i: int| 0 <= i < env_mapping@.len() ==> (#[trigger] env_mapping@[i]).0@ == open[i]
                && env_mapping@[i].1.0 == fresh + i,
            values_ok(self@.table, open),
        ensures
            res.0@.len() == open.len(),
            forall|i: int| 0 <= i < res.0@.len() ==> (#[trigger] res.0@[i]).0.0 == fresh + i,
            res.0@.map_values(|e: (Location, MachineType)| e.1@) == compile_types_spec(self@.table, ir_model::value_types(open)),
            machine_types_view(res.1@) == compile_types_spec(self@.table, ir_model::value_types(open)),
    {
        let ghost table = self@.table;
        let mut env_types: Vec<(Location, MachineType)> = Vec::new();
        let mut env: Vec<MachineType> = Vec::new();
        let mut k: usize = 0;
        proof {
            assert(open.take(0) =~= Seq::<ir_model::ValueModel>::empty());
            assert(ir_model::value_types(open.take(0)) =~= Seq::<TypeModel>::empty());
            assert(env_types@.map_values(|e: (Location, MachineType)| e.1@) =~= Seq::<MachineTypeModel>::empty());
            assert(machine_types_view(env@) =~= Seq::<MachineTypeModel>::empty());
        }
        while k < env_mapping.len()
            invariant
                k <= env_mapping.len(),
                self.wf(),
                table == self@.table,
                env_mapping@.len() == open.len(),
                forall|i: int| 0 <= i < env_mapping@.len() ==> (#[trigger] env_mapping@[i]).0@ == open[i]
                    && env_mapping@[i].1.0 == fresh + i,
                values_ok(table, open),
                env_types@.len() == k,
                forall|i: int| 0 <= i < k ==> (#[trigger] env_types@[i]).0.0 == fresh + i,
                env_types@.map_values(|e: (Location, MachineType)| e.1@) == compile_types_spec(table, ir_model::value_types(open.take(k as int))),
                machine_types_view(env@) == compile_types_spec(table, ir_model::value_types(open.take(k as int))),
            decreases env_mapping.len() - k,
        {
            let ghost v = open[k as int];
            proof {
                assert(value_ok(table, v));
                assert(env_mapping@[k as int].0@ == v);
                assert(ir_model::value_types(open.take(k + 1)) =~= ir_model::value_types(open.take(k as int)).push(ir_model::value_type(v)));
                assert(ir_model::value_types(open.take(k + 1)).drop_last() =~= ir_model::value_types(open.take(k as int)));
                assert(ir_model::value_types(open.take(k + 1)).last() == ir_model::value_type(v));
            }
            let ir_type = env_mapping[k].0.type_();
            let t = self.compile_type(&ir_type);
            let ghost e0 = env_types@;
            let ghost v0 = env@;
            env.push(t.clone());
            env_types.push((env_mapping[k].1, t));
            proof {
                assert(env_types@.map_values(|e: (Location, MachineType)| e.1@) =~= e0.map_values(|e: (Location, MachineType)| e.1@).push(t@));
                assert(machine_types_view(env@) =~= machine_types_view(v0).push(t@));
            }
            k = k + 1;
        }
        proof {
            assert(open.take(open.len() as int) =~= open);
        }
        (env_types, env)
    }

    /// The memory and types of the arguments of a lambda, in order.
    fn compile_arguments(&mut self, args: &Vec<crate::intermediate::IntermediateArg>) -> (res: Vec<(Memory, MachineType)>)
        requires
            old(self).wf(),
            forall|i: int| 0 <= i < args@.len() ==> type_compilable(old(self)@.table, (#[trigger] args@[i])@.type_),
            fits(compile_args_spec(old(self)@, crate::intermediate::args_view(args@)).0),
        ensures
            final(self).wf(),
            (final(self)@, res@.map_values(|a: (Memory, MachineType)| (a.0@, a.1@)))
                == compile_args_spec(old(self)@, crate::intermediate::args_view(args@)),
    {
        let ghost c0 = self@;
        let ghost av = crate::intermediate::args_view(args@);
        let mut arguments: Vec<(Memory, MachineType)> = Vec::new();
        let mut j: usize = 0;
        proof {
            assert(av.take(0) =~= Seq::<ir_model::SlotModel>::empty());
            assert(arguments@.map_values(|a: (Memory, MachineType)| (a.0@, a.1@)) =~= Seq::<(Seq<char>, MachineTypeModel)>::empty());
        }
        while j < args.len()
            invariant
                j <= args.len(),
                self.wf(),
                av == crate::intermediate::args_view(args@),
                forall|i: int| 0 <= i < args@.len() ==> type_compilable(c0.table, (#[trigger] args@[i])@.type_),
                fits(compile_args_spec(c0, av).0),
                self@.table == c0.table,
                (self@, arguments@.map_values(|a: (Memory, MachineType)| (a.0@, a.1@))) == compile_args_spec(c0, av.take(j as int)),
            decreases args.len() - j,
        {
            proof {
                assert(av.take(j + 1).drop_last() =~= av.take(j as int));
                assert(av.take(j + 1).last() == av[j as int]);
                assert(av[j as int] == args@[j as int]@);
                lemma_args_prefix_grows(c0, av, j + 1);
                assert(type_compilable(c0.table, args@[j as int]@.type_));
            }
            let memory = self.compile_location(&args[j].location);
            let t = self.compile_type(&args[j].type_);
            let ghost a0 = arguments@;
            arguments.push((memory, t));
            proof {
                assert(arguments@.map_values(|a: (Memory, MachineType)| (a.0@, a.1@))
                    =~= a0.map_values(|a: (Memory, MachineType)| (a.0@, a.1@)).push((arguments@.last().0@, arguments@.last().1@)));
            }
            j = j + 1;
        }
        proof {
            assert(av.take(args.len() as int) =~= av);
        }
        arguments
    }
}

impl Compiler {
    /// Compiles a lambda into a new function definition; returns the
    /// statements that build its environment and the instantiation of its closure.
    #[verifier::rlimit(80)]
    pub fn compile_lambda(&mut self, lambda: &crate::intermediate::IntermediateLambda)
        -> (res: (Vec<machine::Statement>, machine::ClosureInstantiation))
        requires
            old(self).wf(),
            lambda_ok(old(self)@.table, lambda@),
            fits(compile_lambda_spec(old(self)@, lambda@).0),
        ensures
            final(self).wf(),
            (final(self)@, (machine::statements_view(res.0@), res.1.name@, match res.1.env {
                None => None,
                Some(v) => Some(v@),
            })) == compile_lambda_spec(old(self)@, lambda@),
        decreases 1 + bsize(lambda@.block), 0nat,
    {
        let ghost c = self@;
        let ghost l = lambda@;
        let ghost open = ir_model::open_vars(l);
        let ghost sub = open_substitution(open, c.fresh);
        let ghost body = ir_model::subst_block(l.block, sub);
        let ghost c0 = CompilerModel { fresh: c.fresh + open.len(), ..c };
        let ghost envm = compile_types_spec(c.table, ir_model::value_types(open));
        let ghost (c1, argsm) = compile_args_spec(c0, l.args);
        let ghost (c2, prefixm) = closure_prefix_spec(c1, c.fresh, envm);
        let ghost (c3, (stm, allocm)) = compile_statements_spec(c2, body.statements);
        let ghost (c4, rvm) = compile_value_spec(c3, body.ret);
        proof {
            lemma_lambda_grows(c, l);
            lemma_args_grows(c0, l.args);
            lemma_prefix_grows(c1, c.fresh, envm);
            lemma_stsize_subst(l.block.statements, sub);
            lemma_statements_grows(c2, body.statements);
            lemma_value_grows(c3, body.ret);
            lemma_open_vars_ok(c.table, l);
            lemma_block_ok_subst(c.table, l.block, sub);
            let fd = FnDefModel {
                name: fn_name(c4.fn_defs.len()),
                arguments: argsm,
                statements: prefixm + stm,
                ret: (rvm, compile_type_spec(c.table, ir_model::value_type(body.ret))),
                env: envm,
                allocations: allocm,
                size_bounds: (0, 0),
                is_recursive: false,
            };
            let c5 = CompilerModel { fn_defs: c4.fn_defs.push(fd), ..c4 };
            if open.len() > 0 {
                lemma_compile_values_grows(new_memory_spec(c5).0, open);
            }
            assert(c4.fresh >= c0.fresh);
        }
        let mut lambda = lambda.clone();
        let env_mapping = self.replace_open_vars(&mut lambda);
        proof {
            assert(lambda@.args == l.args);
            assert forall|i: int| 0 <= i < lambda.args@.len() implies type_compilable(c.table, (#[trigger] lambda.args@[i])@.type_) by {
                assert(lambda.args@[i]@ == l.args[i]);
            }
        }
        let (env_types, env) = self.environment_types(&env_mapping, Ghost(open), Ghost(c.fresh));
        let arguments = self.compile_arguments(&lambda.args);
        let mut statements = self.closure_prefix(&env_types, Ghost(c.fresh as nat));
        proof {
            crate::intermediate::lemma_block_view(lambda.block);
        }
        let (mut body_statements, allocations) = self.compile_statements(&lambda.block.statements);
        let ghost p0 = statements@;
        let ghost b0 = body_statements@;
        statements.append(&mut body_statements);
        proof {
            assert(machine::statements_view(statements@) =~= machine::statements_view(p0) + machine::statements_view(b0));
        }
        let ret_ir_type = lambda.block.ret.type_();
        let ret_type = self.compile_type(&ret_ir_type);
        let ret_value = self.compile_value(&lambda.block.ret);
        let mut name = String::new();
        name.append("F");
        push_decimal(&mut name, self.fn_defs.len() as u64);
        let ghost f0 = self.fn_defs@;
        let fn_def = machine::FnDef {
            name: name.clone(),
            arguments,
            statements,
            ret: (ret_value, ret_type),
            env: crate::machine_clone::clone_machine_types(&env),
            allocations,
            size_bounds: (0, 0),
            is_recursive: false,
        };
        self.fn_defs.push(fn_def);
        proof {
            assert(fn_defs_view(self.fn_defs@) =~= fn_defs_view(f0).push(fn_def_view(fn_def)));
            assert(fn_def_view(fn_def).allocations =~= declarations_view(allocations@));
        }
        if env_mapping.len() > 0 {
            let tuple_memory = self.new_memory_location();
            let mut values: Vec<IntermediateValue> = Vec::new();
            let mut k: usize = 0;
            while k < env_mapping.len()
                invariant
                    k <= env_mapping.len(),
                    env_mapping@.len() == open.len(),
                    forall|i: int| 0 <= i < env_mapping@.len() ==> (#[trigger] env_mapping@[i]).0@ == open[i],
                    values@.len() == k,
                    forall|i: int| 0 <= i < k ==> (#[trigger] values@[i])@ == open[i],
                decreases env_mapping.len() - k,
            {
                values.push(env_mapping[k].0.clone());
                k = k + 1;
            }
            proof {
                assert(crate::intermediate::values_view(values@) =~= open);
            }
            let env_values = self.compile_values(&values);
            let tuple_type = MachineType::TupleType(TupleType(env));
            proof {
                lemma_machine_tuple_view(env);
            }
            let out = vec![
                machine::Statement::Declaration(machine::Declaration { memory: tuple_memory.clone(), type_: tuple_type }),
                machine::Statement::Assignment(machine::Assignment {
                    target: tuple_memory.clone(),
                    value: machine::Expression::TupleExpression(machine::TupleExpression(env_values)),
                }),
            ];
            proof {
                assert(machine::statements_view(out@) =~= seq![out@[0]@, out@[1]@]);
            }
            (out, machine::ClosureInstantiation { name, env: Some(Value::Memory(tuple_memory)) })
        } else {
            let out: Vec<machine::Statement> = Vec::new();
            proof {
                assert(machine::statements_view(out@) =~= Seq::<machine::StatementModel>::empty());
            }
            (out, machine::ClosureInstantiation { name, env: None })
        }
    }
}

proof fn lemma_args_prefix_grows(c: CompilerModel, args: Seq<ir_model::SlotModel>, i: int)
    requires
        0 <= i <= args.len(),
    ensures
        grows(compile_args_spec(c, args.take(i)).0, compile_args_spec(c, args).0),
    decreases args.len(),
{
    if i == args.len() {
        assert(args.take(i) =~= args);
    } else {
        lemma_args_prefix_grows(c, args.drop_last(), i);
        assert(args.drop_last().take(i) =~= args.take(i));
        lemma_args_grows(c, args);
    }
}

// ---------------------------------------------------------------------------
// The whole program.

/// One past a location, zero where there is none.
pub open spec fn loc_bound(l: Option<usize>) -> nat {
    match l {
        Some(x) => x as nat + 1,
        None => 0,
    }
}

pub open spec fn max_nat(a: nat, b: nat) -> nat {
    if a < b { b } else { a }
}

pub open spec fn values_bound(vs: Seq<ir_model::ValueModel>) -> nat
    decreases vs.len(),
{
    if vs.len() == 0 {
        0
    } else {
        max_nat(values_bound(vs.drop_last()), loc_bound(ir_model::value_location(vs.last())))
    }
}

pub open spec fn slots_bound(ss: Seq<ir_model::SlotModel>) -> nat
    decreases ss.len(),
{
    if ss.len() == 0 {
        0
    } else {
        max_nat(slots_bound(ss.drop_last()), ss.last().location as nat + 1)
    }
}

/// One past the largest location that an expression mentions, at any depth.
pub open spec fn expr_bound(e: ir_model::ExpressionModel) -> nat
    decreases esize(e), 1nat,
{
    match e {
        ir_model::ExpressionModel::Value(v) => loc_bound(ir_model::value_location(v)),
        ir_model::ExpressionModel::ElementAccess(v, _) => loc_bound(ir_model::value_location(v)),
        ir_model::ExpressionModel::Tuple(vs) => values_bound(vs),
        ir_model::ExpressionModel::FnCall(f, args) => max_nat(loc_bound(ir_model::value_location(f)), values_bound(args)),
        ir_model::ExpressionModel::CtorCall(_, d, _) => match d {
            Some(v) => loc_bound(ir_model::value_location(v)),
            None => 0,
        },
        ir_model::ExpressionModel::Lambda(l) => lambda_bound(l),
        ir_model::ExpressionModel::If(c, t, f) => max_nat(loc_bound(ir_model::value_location(c)), max_nat(block_bound(t), block_bound(f))),
        ir_model::ExpressionModel::Match(v, bs) => max_nat(loc_bound(ir_model::value_location(v)), branches_bound(bs)),
    }
}

pub open spec fn lambda_bound(l: ir_model::LambdaModel) -> nat
    decreases 1 + bsize(l.block), 0nat,
{
    max_nat(slots_bound(l.args), block_bound(l.block))
}

pub open spec fn block_bound(b: ir_model::BlockModel) -> nat
    decreases bsize(b), 1nat,
{
    max_nat(statements_bound(b.statements), loc_bound(ir_model::value_location(b.ret)))
}

pub open spec fn statements_bound(st: Seq<ir_model::AssignmentModel>) -> nat
    decreases stsize(st), 1nat,
{
    if st.len() == 0 {
        0
    } else {
        max_nat(statements_bound(st.drop_last()), max_nat(st.last().location as nat + 1, expr_bound(st.last().expression)))
    }
}

pub open spec fn branches_bound(bs: Seq<ir_model::BranchModel>) -> nat
    decreases brsize(bs), 1nat,
{
    if bs.len() == 0 {
        0
    } else {
        let b = bs.last();
        max_nat(branches_bound(bs.drop_last()), max_nat(match b.target {
            Some(t) => t.location as nat + 1,
            None => 0,
        }, block_bound(b.block)))
    }
}

fn value_bound_of(v: &IntermediateValue) -> (res: usize)
    requires
        loc_bound(ir_model::value_location(v@)) <= usize::MAX,
    ensures
        res == loc_bound(ir_model::value_location(v@)),
{
    match v.location() {
        Some(l) => l.0 + 1,
        None => 0,
    }
}

fn values_bound_of(vs: &Vec<IntermediateValue>) -> (res: usize)
    requires
        values_bound(crate::intermediate::values_view(vs@)) <= usize::MAX,
    ensures
        res == values_bound(crate::intermediate::values_view(vs@)),
{
    let ghost vv = crate::intermediate::values_view(vs@);
    let mut m: usize = 0;
    let mut i: usize = 0;
    proof {
        assert(vv.take(0) =~= Seq::<ir_model::ValueModel>::empty());
    }
    while i < vs.len()
        invariant
            i <= vs.len(),
            vv == crate::intermediate::values_view(vs@),
            values_bound(vv) <= usize::MAX,
            m == values_bound(vv.take(i as int)),
        decreases vs.len() - i,
    {
        proof {
            assert(vv.take(i + 1).drop_last() =~= vv.take(i as int));
            assert(vv.take(i + 1).last() == vv[i as int]);
            lemma_values_bound_prefix(vv, i + 1);
        }
        let b = value_bound_of(&vs[i]);
        if m < b {
            m = b;
        }
        i = i + 1;
    }
    proof {
        assert(vv.take(vs.len() as int) =~= vv);
    }
    m
}

proof fn lemma_values_bound_prefix(vs: Seq<ir_model::ValueModel>, i: int)
    requires
        0 < i <= vs.len(),
    ensures
        values_bound(vs.take(i)) <= values_bound(vs),
        loc_bound(ir_model::value_location(vs[i - 1])) <= values_bound(vs),
    decreases vs.len(),
{
    if i < vs.len() {
        lemma_values_bound_prefix(vs.drop_last(), i);
        assert(vs.drop_last().take(i) =~= vs.take(i));
    } else {
        assert(vs.take(i) =~= vs);
    }
}

/// One past the largest location that an expression mentions.
fn expression_bound_of(e: &crate::intermediate::IntermediateExpression) -> (res: usize)
    requires
        expr_bound(e@) <= usize::MAX,
    ensures
        res == expr_bound(e@),
    decreases esize(e@), 1nat,
{
    match e {
        crate::intermediate::IntermediateExpression::IntermediateValue(v) => value_bound_of(v),
        crate::intermediate::IntermediateExpression::IntermediateElementAccess(a) => value_bound_of(&a.value),
        crate::intermediate::IntermediateExpression::IntermediateTupleExpression(t) => values_bound_of(&t.0),
        crate::intermediate::IntermediateExpression::IntermediateFnCall(c) => {
            let a = value_bound_of(&c.fn_);
            let b = values_bound_of(&c.args);
            if a < b { b } else { a }
        },
        crate::intermediate::IntermediateExpression::IntermediateCtorCall(c) => match &c.data {
            Some(v) => value_bound_of(v),
            None => 0,
        },
        crate::intermediate::IntermediateExpression::IntermediateLambda(l) => lambda_bound_of(l),
        crate::intermediate::IntermediateExpression::IntermediateIf(i) => {
            let a = value_bound_of(&i.condition);
            let b = block_bound_of(&i.branches.0);
            let c = block_bound_of(&i.branches.1);
            let bc = if b < c { c } else { b };
            if a < bc { bc } else { a }
        },
        crate::intermediate::IntermediateExpression::IntermediateMatch(m) => {
            proof {
                crate::intermediate::lemma_match_view(*m);
            }
            let a = value_bound_of(&m.subject);
            let b = branches_bound_of(&m.branches);
            if a < b { b } else { a }
        },
    }
}

fn lambda_bound_of(l: &crate::intermediate::IntermediateLambda) -> (res: usize)
    requires
        lambda_bound(l@) <= usize::MAX,
    ensures
        res == lambda_bound(l@),
    decreases 1 + bsize(l@.block), 0nat,
{
    let ghost av = crate::intermediate::args_view(l.args@);
    let mut m: usize = 0;
    let mut i: usize = 0;
    proof {
        assert(av.take(0) =~= Seq::<ir_model::SlotModel>::empty());
    }
    while i < l.args.len()
        invariant
            i <= l.args.len(),
            av == crate::intermediate::args_view(l.args@),
            av == l@.args,
            lambda_bound(l@) <= usize::MAX,
            m == slots_bound(av.take(i as int)),
        decreases l.args.len() - i,
    {
        proof {
            assert(av.take(i + 1).drop_last() =~= av.take(i as int));
            assert(av.take(i + 1).last() == av[i as int]);
            lemma_slots_bound_prefix(av, i + 1);
        }
        let b = l.args[i].location.0 + 1;
        if m < b {
            m = b;
        }
        i = i + 1;
    }
    proof {
        assert(av.take(l.args.len() as int) =~= av);
    }
    let b = block_bound_of(&l.block);
    if m < b { b } else { m }
}

proof fn lemma_slots_bound_prefix(ss: Seq<ir_model::SlotModel>, i: int)
    requires
        0 < i <= ss.len(),
    ensures
        slots_bound(ss.take(i)) <= slots_bound(ss),
        ss[i - 1].location as nat + 1 <= slots_bound(ss),
    decreases ss.len(),
{
    if i < ss.len() {
        lemma_slots_bound_prefix(ss.drop_last(), i);
        assert(ss.drop_last().take(i) =~= ss.take(i));
    } else {
        assert(ss.take(i) =~= ss);
    }
}

fn block_bound_of(b: &crate::intermediate::IntermediateBlock) -> (res: usize)
    requires
        block_bound(b@) <= usize::MAX,
    ensures
        res == block_bound(b@),
    decreases bsize(b@), 1nat,
{
    proof {
        crate::intermediate::lemma_block_view(*b);
    }
    let a = statements_bound_of(&b.statements);
    let r = value_bound_of(&b.ret);
    if a < r { r } else { a }
}

fn statements_bound_of(st: &Vec<crate::intermediate::IntermediateStatement>) -> (res: usize)
    requires
        statements_bound(crate::intermediate::statements_view(st@)) <= usize::MAX,
    ensures
        res == statements_bound(crate::intermediate::statements_view(st@)),
    decreases stsize(crate::intermediate::statements_view(st@)), 1nat,
{
    let ghost sv = crate::intermediate::statements_view(st@);
    let mut m: usize = 0;
    let mut i: usize = 0;
    proof {
        assert(sv.take(0) =~= Seq::<ir_model::AssignmentModel>::empty());
    }
    while i < st.len()
        invariant
            i <= st.len(),
            sv == crate::intermediate::statements_view(st@),
            statements_bound(sv) <= usize::MAX,
            m == statements_bound(sv.take(i as int)),
        decreases st.len() - i,
    {
        proof {
            assert(sv.take(i + 1).drop_last() =~= sv.take(i as int));
            assert(sv.take(i + 1).last() == sv[i as int]);
            lemma_statements_bound_prefix(sv, i + 1);
            lemma_stsize_prefix(sv, i + 1);
        }
        let b = match &st[i] {
            crate::intermediate::IntermediateStatement::IntermediateAssignment(a) => {
                let l = a.location.0 + 1;
                let e = expression_bound_of(&a.expression);
                if l < e { e } else { l }
            },
        };
        if m < b {
            m = b;
        }
        i = i + 1;
    }
    proof {
        assert(sv.take(st.len() as int) =~= sv);
    }
    m
}

proof fn lemma_statements_bound_prefix(st: Seq<ir_model::AssignmentModel>, i: int)
    requires
        0 < i <= st.len(),
    ensures
        statements_bound(st.take(i)) <= statements_bound(st),
        max_nat(st[i - 1].location as nat + 1, expr_bound(st[i - 1].expression)) <= statements_bound(st),
    decreases st.len(),
{
    if i < st.len() {
        lemma_statements_bound_prefix(st.drop_last(), i);
        assert(st.drop_last().take(i) =~= st.take(i));
    } else {
        assert(st.take(i) =~= st);
    }
}

fn branches_bound_of(bs: &Vec<crate::intermediate::IntermediateMatchBranch>) -> (res: usize)
    requires
        branches_bound(crate::intermediate::branches_view(bs@)) <= usize::MAX,
    ensures
        res == branches_bound(crate::intermediate::branches_view(bs@)),
    decreases brsize(crate::intermediate::branches_view(bs@)), 1nat,
{
    let ghost bv = crate::intermediate::branches_view(bs@);
    let mut m: usize = 0;
    let mut i: usize = 0;
    proof {
        assert(bv.take(0) =~= Seq::<ir_model::BranchModel>::empty());
    }
    while i < bs.len()
        invariant
            i <= bs.len(),
            bv == crate::intermediate::branches_view(bs@),
            branches_bound(bv) <= usize::MAX,
            m == branches_bound(bv.take(i as int)),
        decreases bs.len() - i,
    {
        proof {
            assert(bv.take(i + 1).drop_last() =~= bv.take(i as int));
            assert(bv.take(i + 1).last() == bv[i as int]);
            lemma_branches_bound_prefix(bv, i + 1);
            lemma_brsize_prefix(bv, i + 1);
            assert(bv[i as int].block == bs@[i as int].block@);
        }
        let t = match &bs[i].target {
            Some(a) => a.location.0 + 1,
            None => 0,
        };
        let k = block_bound_of(&bs[i].block);
        let b = if t < k { k } else { t };
        if m < b {
            m = b;
        }
        i = i + 1;
    }
    proof {
        assert(bv.take(bs.len() as int) =~= bv);
    }
    m
}

proof fn lemma_branches_bound_prefix(bs: Seq<ir_model::BranchModel>, i: int)
    requires
        0 < i <= bs.len(),
    ensures
        branches_bound(bs.take(i)) <= branches_bound(bs),
        max_nat(match bs[i - 1].target {
            Some(t) => t.location as nat + 1,
            None => 0,
        }, block_bound(bs[i - 1].block)) <= branches_bound(bs),
    decreases bs.len(),
{
    if i < bs.len() {
        lemma_branches_bound_prefix(bs.drop_last(), i);
        assert(bs.drop_last().take(i) =~= bs.take(i));
    } else {
        assert(bs.take(i) =~= bs);
    }
}

/// The state in which a program's compilation starts: nothing named, the
/// program's type table, and renaming to locations beyond those of the program.
pub open spec fn initial_state(p: crate::intermediate::IntermediateProgram) -> CompilerModel {
    CompilerModel {
        ids: Map::empty(),
        next: 0,
        fresh: lambda_bound(p.main@),
        table: types_view(p.types@),
        fn_defs: Seq::empty(),
    }
}

/// Whether a program can be compiled: its types and main lambda can, the main
/// lambda has no open variables, and the names and locations the compilation
/// hands out fit in machine words.
pub open spec fn program_compilable(p: crate::intermediate::IntermediateProgram) -> bool {
    &&& table_compilable(types_view(p.types@))
    &&& lambda_ok(types_view(p.types@), p.main@)
    &&& ir_model::open_vars(p.main@).len() == 0
    &&& lambda_bound(p.main@) <= usize::MAX
    &&& fits(compile_lambda_spec(initial_state(p), p.main@).0)
}

/// The function definitions of a compiled program: those of its lambdas, the
/// main lambda last and named `Main`.
pub open spec fn program_fn_defs(p: crate::intermediate::IntermediateProgram) -> Seq<FnDefModel> {
    let defs = compile_lambda_spec(initial_state(p), p.main@).0.fn_defs;
    defs.update(defs.len() - 1, FnDefModel { name: "Main"@, ..defs.last() })
}

impl Compiler {
    /// Compiles a program: the definitions of its union types, and a function
    /// definition for each lambda, the main lambda last and named `Main`.
    pub fn compile(program: crate::intermediate::IntermediateProgram) -> (res: machine::Program)
        requires
            program_compilable(program),
        ensures
            machine::type_defs_view(res.type_defs@) == type_defs_spec(types_view(program.types@)),
            fn_defs_view(res.fn_defs@) == program_fn_defs(program),
    {
        let ghost p = program;
        let bound = lambda_bound_of(&program.main);
        let mut compiler = Compiler::new();
        compiler.fresh_location = bound;
        let crate::intermediate::IntermediateProgram { main, types } = program;
        let type_defs = compiler.compile_type_defs(types);
        proof {
            assert(compiler@ == initial_state(p));
            lemma_lambda_grows(compiler@, main@);
        }
        let (_statements, _closure) = compiler.compile_lambda(&main);
        let mut fn_defs = compiler.fn_defs;
        let ghost defs = fn_defs@;
        let mut last = match fn_defs.pop() {
            Some(f) => f,
            None => {
                proof {
                    assert(false);
                }
                machine::FnDef {
                    name: String::new(),
                    arguments: Vec::new(),
                    statements: Vec::new(),
                    ret: (Value::BuiltIn(BuiltIn::Boolean(Boolean { value: false })), MachineType::AtomicType(AtomicType(AtomicTypeEnum::BOOL))),
                    env: Vec::new(),
                    allocations: Vec::new(),
                    size_bounds: (0, 0),
                    is_recursive: false,
                }
            },
        };
        last.name = String::from_str("Main");
        fn_defs.push(last);
        proof {
            assert(fn_defs@ == defs.update(defs.len() - 1, last));
            assert(fn_defs_view(fn_defs@) =~= fn_defs_view(defs).update(defs.len() - 1, fn_def_view(last)));
        }
        machine::Program { type_defs, fn_defs }
    }
}

// ---------------------------------------------------------------------------
// Laws of the naming of memory.

/// Whether the numbers given to locations are distinct and below the next number.
pub open spec fn ids_valid(c: CompilerModel) -> bool {
    &&& forall|l: usize| #[trigger] c.ids.contains_key(l) ==> c.ids[l] < c.next
    &&& forall|l1: usize, l2: usize| #[trigger] c.ids.contains_key(l1) && #[trigger] c.ids.contains_key(l2) && l1 != l2
        ==> c.ids[l1] != c.ids[l2]
}

proof fn lemma_decimal_nonempty(n: nat)
    ensures
        decimal(n).len() >= 1,
        n >= 10 ==> decimal(n).len() >= 2,
    decreases n,
{
    if n >= 10 {
        lemma_decimal_nonempty(n / 10);
    }
}

proof fn lemma_digit_char_injective(a: nat, b: nat)
    requires
        a < 10,
        b < 10,
        crate::text::digit_char(a) == crate::text::digit_char(b),
    ensures
        a == b,
{
}

/// Different numbers have different decimal representations.
pub proof fn lemma_decimal_injective(n: nat, m: nat)
    requires
        decimal(n) == decimal(m),
    ensures
        n == m,
    decreases n,
{
    lemma_decimal_nonempty(n);
    lemma_decimal_nonempty(m);
    if n < 10 && m < 10 {
        assert(decimal(n) == seq![crate::text::digit_char(n)]);
        assert(decimal(m) == seq![crate::text::digit_char(m)]);
        assert(decimal(n)[0] == decimal(m)[0]);
        assert(seq![crate::text::digit_char(n)][0] == crate::text::digit_char(n));
        assert(crate::text::digit_char(n) == crate::text::digit_char(m));
        lemma_digit_char_injective(n, m);
    } else if n >= 10 && m >= 10 {
        assert(decimal(n) == decimal(n / 10).push(crate::text::digit_char(n % 10)));
        assert(decimal(m) == decimal(m / 10).push(crate::text::digit_char(m % 10)));
        assert(decimal(n).last() == decimal(m).last());
        assert(decimal(n / 10).push(crate::text::digit_char(n % 10)).last() == crate::text::digit_char(n % 10));
        assert(decimal(m / 10).push(crate::text::digit_char(m % 10)).last() == crate::text::digit_char(m % 10));
        assert(crate::text::digit_char(n % 10) == crate::text::digit_char(m % 10));
        lemma_digit_char_injective(n % 10, m % 10);
        assert(decimal(n).drop_last() =~= decimal(n / 10));
        assert(decimal(m).drop_last() =~= decimal(m / 10));
        lemma_decimal_injective(n / 10, m / 10);
    } else {
        assert(decimal(n).len() != decimal(m).len());
    }
}

/// Different numbers name different memory.
pub proof fn lemma_memory_name_injective(n: nat, m: nat)
    requires
        memory_name(n) == memory_name(m),
    ensures
        n == m,
{
    reveal_strlit("m");
    assert(memory_name(n).subrange(1, memory_name(n).len() as int) =~= decimal(n));
    assert(memory_name(m).subrange(1, memory_name(m).len() as int) =~= decimal(m));
    lemma_decimal_injective(n, m);
}

/// In every state a compiler can reach, different locations hold different
/// numbers, each below the next number to give out.
pub proof fn law_reachable_ids_valid(c: &Compiler)
    requires
        c.wf(),
    ensures
        ids_valid(c@),
{
}

/// A location keeps the memory it was given: compiling it again gives the
/// same memory and changes nothing.
pub proof fn law_compile_location_stable(c: CompilerModel, l: usize)
    ensures
        compile_location_spec(compile_location_spec(c, l).0, l) == compile_location_spec(c, l),
{
}

/// Different locations get different memory, and the numbering stays valid.
pub proof fn law_compile_location_distinct(c: CompilerModel, l1: usize, l2: usize)
    requires
        ids_valid(c),
        l1 != l2,
    ensures
        ids_valid(compile_location_spec(c, l1).0),
        compile_location_spec(c, l1).1 != compile_location_spec(compile_location_spec(c, l1).0, l2).1,
{
    let (c1, m1) = compile_location_spec(c, l1);
    let (c2, m2) = compile_location_spec(c1, l2);
    assert(ids_valid(c1));
    if m1 == m2 {
        assert(c1.ids.contains_key(l1));
        if c1.ids.contains_key(l2) {
            assert(m2 == memory_name(c1.ids[l2]));
            lemma_memory_name_injective(c1.ids[l1], c1.ids[l2]);
        } else {
            assert(m2 == memory_name(c1.next));
            lemma_memory_name_injective(c1.ids[l1], c1.next);
        }
    }
}

/// A new memory name differs from the memory of every location compiled so far.
pub proof fn law_new_memory_fresh(c: CompilerModel, l: usize)
    requires
        ids_valid(c),
        c.ids.contains_key(l),
    ensures
        new_memory_spec(c).1 != compile_location_spec(c, l).1,
{
    if new_memory_spec(c).1 == compile_location_spec(c, l).1 {
        lemma_memory_name_injective(c.next, c.ids[l]);
    }
}


/// A compiled conditional ends in an `If` on the compiled condition whose first
/// branch, run when the condition holds, is the compiled first block followed
/// by the assignment of its value to the result memory, and whose second
/// branch is the compiled second block, compiled after the first, followed by
/// the assignment of its value; the conditional's value is that memory. The
/// branch run when the condition holds is the same whatever the second block is.
pub proof fn law_compiled_if_keeps_branches(
    c: CompilerModel,
    cond: ir_model::ValueModel,
    t: ir_model::BlockModel,
    f: ir_model::BlockModel,
    other: ir_model::BlockModel,
)
    ensures
        ({
            let c1 = compile_value_spec(c, cond).0;
            let cv = compile_value_spec(c, cond).1;
            let c2 = new_memory_spec(c1).0;
            let mem = new_memory_spec(c1).1;
            let tb = compile_block_spec(c2, t);
            let fb = compile_block_spec(tb.0, f);
            let r = compile_if_spec(c, cond, t, f).1;
            &&& r.0.last() == machine::StatementModel::If(
                cv,
                tb.1.0.push(assign_value(mem, tb.1.1)),
                fb.1.0.push(assign_value(mem, fb.1.1)),
            )
            &&& r.1 == machine::ExpressionModel::Value(machine::ValueModel::Memory(mem))
        }),
        compile_if_spec(c, cond, t, f).1.0.last()->If_1 == compile_if_spec(c, cond, t, other).1.0.last()->If_1,
{
}


/// Compiling the branches of a match gives one compiled branch per branch, in
/// order: the `j`-th holds a target exactly when the `j`-th branch does, and is
/// the `j`-th block, compiled after the branches before it, followed by the
/// assignment of its value to the result memory. Compiling fewer branches gives
/// a prefix of the compiled branches.
pub proof fn law_compiled_branches_keep_order(c: CompilerModel, bs: Seq<ir_model::BranchModel>, mem: Seq<char>)
    ensures
        compile_branches_spec(c, bs, mem).1.0.len() == bs.len(),
        forall|k: int| 0 <= k <= bs.len() ==> #[trigger] compile_branches_spec(c, bs, mem).1.0.take(k)
            == compile_branches_spec(c, bs.take(k), mem).1.0,
        forall|j: int| 0 <= j < bs.len() ==> {
            let r = #[trigger] compile_branches_spec(c, bs, mem).1.0[j];
            let before = compile_branches_spec(c, bs.take(j), mem).0;
            let b = compile_block_spec(before, bs[j].block);
            &&& (r.0 is Some) == (bs[j].target is Some)
            &&& r.1 == b.1.0.push(assign_value(mem, b.1.1))
        },
    decreases bs.len(),
{
    let r = compile_branches_spec(c, bs, mem).1.0;
    if bs.len() > 0 {
        let bl = bs.drop_last();
        law_compiled_branches_keep_order(c, bl, mem);
        let prev = compile_branches_spec(c, bl, mem).1.0;
        assert(r.drop_last() =~= prev);
        assert(bs.take(bs.len() - 1) =~= bl);
        assert forall|k: int| 0 <= k <= bs.len() implies #[trigger] r.take(k)
            == compile_branches_spec(c, bs.take(k), mem).1.0 by {
            if k == bs.len() {
                assert(bs.take(k) =~= bs);
                assert(r.take(k) =~= r);
            } else {
                assert(bl.take(k) =~= bs.take(k));
                assert(r.take(k) =~= prev.take(k));
            }
        }
        assert forall|j: int| 0 <= j < bs.len() implies {
            let rj = #[trigger] compile_branches_spec(c, bs, mem).1.0[j];
            let before = compile_branches_spec(c, bs.take(j), mem).0;
            let b = compile_block_spec(before, bs[j].block);
            &&& (rj.0 is Some) == (bs[j].target is Some)
            &&& rj.1 == b.1.0.push(assign_value(mem, b.1.1))
        } by {
            if j < bs.len() - 1 {
                assert(r[j] == prev[j]);
                assert(bl.take(j) =~= bs.take(j));
                assert(bl[j] == bs[j]);
            }
        }
    } else {
        assert forall|k: int| 0 <= k <= bs.len() implies #[trigger] r.take(k)
            == compile_branches_spec(c, bs.take(k), mem).1.0 by {
            assert(bs.take(k) =~= bs);
            assert(r.take(k) =~= r);
        }
    }
}

} // verus!
