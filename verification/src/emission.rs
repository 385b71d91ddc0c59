//! Emission of C++ code from the machine representation.

use vstd::prelude::*;
use crate::atoms::{AtomicTypeEnum, Boolean, Integer, Name};
use crate::machine::{
    lemma_machine_fn_view, lemma_machine_tuple_view, machine_type_view, machine_types_view,
    memories_view, names_view, values_view, Allocation, Assignment, AtomicType, Await, BuiltIn,
    Statement, MatchBranch, FnDef, TypeDef, TypeDefModel, directly_used, type_defs_view,
    constructors_view, constructor_view, Program, lemma_if_view, lemma_match_statement_view, match_branch_view, statements_view,
    ConstructorCall, Declaration, ElementAccess, Expression, ExpressionModel, FnCall, FnType,
    MachineType, MachineTypeModel, Memory, TupleExpression, TupleType, UnionType, Value,
    ValueModel, allocation_fns_view, StatementModel,
};
use crate::text::{append_joined, decimal, join, push_decimal, push_signed_decimal, signed_decimal, strings_view};

verus! {

// ---------------------------------------------------------------------------
// Types.

/// The C++ spelling of a type.
pub open spec fn type_code(t: MachineTypeModel) -> Seq<char>
    decreases t,
{
    match t {
        MachineTypeModel::Atomic(AtomicTypeEnum::INT) => "Int"@,
        MachineTypeModel::Atomic(AtomicTypeEnum::BOOL) => "Bool"@,
        MachineTypeModel::Tuple(ts) => "TupleT<"@ + join(type_codes(ts), ","@) + ">"@,
        MachineTypeModel::Function(args, ret) => "FnT<"@ + join(seq![type_code(*ret)] + type_codes(args), ","@) + ">"@,
        MachineTypeModel::WeakFunction(args, ret) => "WeakFnT<"@ + join(seq![type_code(*ret)] + type_codes(args), ","@) + ">"@,
        MachineTypeModel::Union(names) => "VariantT<"@ + join(names, ","@) + ">"@,
        MachineTypeModel::Named(n) => n,
    }
}

/// The C++ spellings of a sequence of types.
pub open spec fn type_codes(ts: Seq<MachineTypeModel>) -> Seq<Seq<char>>
    decreases ts,
{
    if ts.len() == 0 {
        Seq::empty()
    } else {
        type_codes(ts.drop_last()).push(type_code(ts.last()))
    }
}

pub proof fn lemma_type_codes(ts: Seq<MachineTypeModel>)
    ensures
        type_codes(ts) == ts.map_values(|t: MachineTypeModel| type_code(t)),
    decreases ts.len(),
{
    if ts.len() > 0 {
        lemma_type_codes(ts.drop_last());
        assert(type_codes(ts) =~= ts.map_values(|t: MachineTypeModel| type_code(t)));
    } else {
        assert(type_codes(ts) =~= ts.map_values(|t: MachineTypeModel| type_code(t)));
    }
}

/// The C++ spelling of a lazily evaluated value of a type.
pub open spec fn lazy_type_code(t: MachineTypeModel) -> Seq<char> {
    "LazyT<"@ + type_code(t) + ">"@
}

/// Emits C++ code for machine nodes.
pub struct Emitter {}

impl Emitter {
    fn emit_types(&self, ts: &Vec<MachineType>) -> (res: Vec<String>)
        ensures
            strings_view(res@) == machine_types_view(ts@).map_values(|t: MachineTypeModel| type_code(t)),
        decreases ts,
    {
        let mut out: Vec<String> = Vec::new();
        let mut i: usize = 0;
        while i < ts.len()
            invariant
                i <= ts.len(),
                out@.len() == i,
                forall|j: int| 0 <= j < i ==> (#[trigger] out@[j])@ == type_code(ts@[j]@),
            decreases ts.len() - i,
        {
            out.push(self.emit_type(&ts[i]));
            i = i + 1;
        }
        proof {
            assert(strings_view(out@) =~= machine_types_view(ts@).map_values(|t: MachineTypeModel| type_code(t)));
        }
        out
    }

    /// The C++ spelling of a type.
    pub fn emit_type(&self, type_: &MachineType) -> (res: String)
        ensures
            res@ == type_code(type_@),
        decreases type_,
    {
        let mut out = String::new();
        match type_ {
            MachineType::AtomicType(AtomicType(AtomicTypeEnum::INT)) => out.append("Int"),
            MachineType::AtomicType(AtomicType(AtomicTypeEnum::BOOL)) => out.append("Bool"),
            MachineType::TupleType(TupleType(ts)) => {
                proof {
                    lemma_machine_tuple_view(*ts);
                    lemma_type_codes(machine_types_view(ts@));
                }
                let parts = self.emit_types(ts);
                out.append("TupleT<");
                append_joined(&mut out, &parts, ",");
                out.append(">");
                proof {
                    assert(out@ =~= type_code(type_@));
                }
            },
            MachineType::FnType(FnType(args, ret)) | MachineType::WeakFnType(FnType(args, ret)) => {
                proof {
                    lemma_machine_fn_view(*args, *ret);
                    lemma_type_codes(machine_types_view(args@));
                }
                let mut parts: Vec<String> = Vec::new();
                parts.push(self.emit_type(ret));
                let mut rest = self.emit_types(args);
                let ghost p0 = parts@;
                let ghost r0 = rest@;
                parts.append(&mut rest);
                proof {
                    assert(strings_view(parts@) =~= seq![type_code(ret@)] + type_codes(machine_types_view(args@)));
                }
                if let MachineType::WeakFnType(_) = type_ {
                    out.append("WeakFnT<");
                } else {
                    out.append("FnT<");
                }
                append_joined(&mut out, &parts, ",");
                out.append(">");
                proof {
                    assert(out@ =~= type_code(type_@));
                }
            },
            MachineType::UnionType(UnionType(names)) => {
                out.append("VariantT<");
                append_joined(&mut out, names, ",");
                out.append(">");
                proof {
                    assert(strings_view(names@) =~= names_view(names@));
                    assert(out@ =~= type_code(type_@));
                }
            },
            MachineType::NamedType(n) => out.append(n.as_str()),
        }
        proof {
            assert(out@ =~= type_code(type_@));
        }
        out
    }

    /// The C++ spelling of a lazily evaluated value of a type.
    pub fn emit_lazy_type(&self, type_: &MachineType) -> (res: String)
        ensures
            res@ == lazy_type_code(type_@),
    {
        let mut out = String::new();
        out.append("LazyT<");
        let t = self.emit_type(type_);
        out.append(t.as_str());
        out.append(">");
        proof {
            assert(out@ =~= lazy_type_code(type_@));
        }
        out
    }
}

// ---------------------------------------------------------------------------
// Values and expressions.

pub open spec fn bool_code(b: bool) -> Seq<char> {
    if b { "true"@ } else { "false"@ }
}

/// The C++ type of a value.
pub open spec fn value_type_code(v: ValueModel) -> Seq<char> {
    match v {
        ValueModel::Boolean(_) => "Bool"@,
        ValueModel::Integer(_) => "Int"@,
        ValueModel::BuiltInFn(name) => "decltype("@ + name + "_G)"@,
        ValueModel::Memory(id) => "decltype("@ + id + ")"@,
    }
}

/// The C++ code of a value.
pub open spec fn value_code(v: ValueModel) -> Seq<char> {
    match v {
        ValueModel::Integer(i) => value_type_code(v) + "{"@ + signed_decimal(i as int) + "LL}"@,
        ValueModel::Boolean(b) => value_type_code(v) + "{"@ + bool_code(b) + "}"@,
        ValueModel::BuiltInFn(name) => "make_lazy<"@ + value_type_code(v) + ">("@ + name + "_G)"@,
        ValueModel::Memory(id) => id,
    }
}

pub open spec fn value_list_code(vs: Seq<ValueModel>) -> Seq<char> {
    join(vs.map_values(|v: ValueModel| value_code(v)), ", "@)
}

/// The C++ code of a call.
pub open spec fn fn_call_code(f: ValueModel, args: Seq<ValueModel>) -> Seq<char> {
    let args_code = value_list_code(args);
    match f {
        ValueModel::Memory(id) => if args_code.len() == 0 {
            "fn_call("@ + ("extract_lazy("@ + id + ")"@) + ")"@
        } else {
            "fn_call("@ + ("extract_lazy("@ + id + "),"@ + args_code) + ")"@
        },
        ValueModel::BuiltInFn(name) => name + "("@ + args_code + ")"@,
        _ => Seq::empty(),
    }
}

/// The C++ code of a constructor call.
pub open spec fn constructor_code(type_: Seq<char>, idx: usize, data: Option<(Seq<char>, ValueModel)>) -> Seq<char> {
    let indexing = "std::integral_constant<std::size_t,"@ + decimal(idx as nat) + ">()"@;
    let value = match data {
        None => Seq::empty(),
        Some((name, v)) => ", "@ + name + "{ensure_lazy("@ + value_code(v) + ")}"@,
    };
    type_ + "{"@ + indexing + value + "}"@
}

/// Whether an expression is emitted directly: every kind but a closure instantiation.
pub open spec fn emits_directly(e: ExpressionModel) -> bool {
    &&& !(e is ClosureInstantiation)
    &&& e matches ExpressionModel::FnCall(f, _, _) ==> (f is Memory || f is BuiltInFn)
}

/// The C++ code of an expression that is emitted directly.
pub open spec fn expression_code(e: ExpressionModel) -> Seq<char> {
    match e {
        ExpressionModel::ElementAccess(v, idx) => {
            let code = "std::get<"@ + decimal(idx as nat) + "ULL>("@ + value_code(v) + ")"@;
            if v == ValueModel::Memory("env"@) { "load_env("@ + code + ")"@ } else { code }
        },
        ExpressionModel::Value(v) => value_code(v),
        ExpressionModel::Tuple(vs) => "std::make_tuple("@ + value_list_code(vs) + ")"@,
        ExpressionModel::ConstructorCall(t, idx, data) => constructor_code(t, idx, data),
        ExpressionModel::FnCall(f, _, args) => fn_call_code(f, args),
        ExpressionModel::ClosureInstantiation(_, _) => Seq::empty(),
    }
}

/// The C++ code that waits for memory to be computed.
pub open spec fn await_code(ms: Seq<Seq<char>>) -> Seq<char> {
    "WorkManager::await("@ + join(ms, ","@) + ");"@
}

/// The C++ declaration of a memory location.
pub open spec fn declaration_code(t: MachineTypeModel, m: Seq<char>) -> Seq<char> {
    lazy_type_code(t) + " "@ + m + ";"@
}

/// The field of an allocator that holds the `i`-th closure, of function `f`.
pub open spec fn allocator_field_code(i: nat, f: Seq<char>) -> Seq<char> {
    "ClosureFnT<remove_lazy_t<typename "@ + f + "::EnvT>, typename "@ + f + "::Fn> _"@ + decimal(i) + ";"@
}

/// The C++ code of an allocator for a cycle of closures.
pub open spec fn allocation_code(name: Seq<char>, fns: Seq<(Seq<char>, Seq<char>)>, target: Seq<char>) -> Seq<char> {
    let fields = join(Seq::new(fns.len(), |i: int| allocator_field_code(i as nat, fns[i].1)), "\n"@);
    let definition = "struct "@ + name + " { "@ + fields + " };"@;
    let instantiation = "std::shared_ptr<"@ + name + "> "@ + target + " = std::make_shared<"@ + name + ">();"@;
    definition + " "@ + instantiation
}

/// The model of the slots that allocators hold closures in.
pub open spec fn slots_view(slots: Seq<(Memory, (String, usize))>) -> Seq<(Seq<char>, (Seq<char>, usize))> {
    slots.map_values(|e: (Memory, (String, usize))| (e.0@, (e.1.0@, e.1.1)))
}

/// Where an allocator holds each closure of its cycle: the closure's memory,
/// the allocator's memory and the index of the field.
pub open spec fn allocation_slots(fns: Seq<(Seq<char>, Seq<char>)>, target: Seq<char>) -> Seq<(Seq<char>, (Seq<char>, usize))> {
    Seq::new(fns.len(), |i: int| (fns[i].0, (target, i as usize)))
}

impl Emitter {
    /// The C++ type of a value.
    pub fn emit_value_type(&self, value: &Value) -> (res: String)
        ensures
            res@ == value_type_code(value@),
    {
        let mut out = String::new();
        match value {
            Value::BuiltIn(BuiltIn::Boolean(_)) => out.append("Bool"),
            Value::BuiltIn(BuiltIn::Integer(_)) => out.append("Int"),
            Value::BuiltIn(BuiltIn::BuiltInFn(name)) => {
                out.append("decltype(");
                out.append(name.as_str());
                out.append("_G)");
            },
            Value::Memory(Memory(id)) => {
                out.append("decltype(");
                out.append(id.as_str());
                out.append(")");
            },
        }
        proof {
            assert(out@ =~= value_type_code(value@));
        }
        out
    }

    /// The C++ code of a built-in value.
    pub fn emit_builtin(&self, value: &BuiltIn) -> (res: String)
        ensures
            res@ == value_code(Value::BuiltIn(*value)@),
    {
        let mut out = String::new();
        match value {
            BuiltIn::Integer(Integer { value: v }) => {
                out.append("Int");
                out.append("{");
                push_signed_decimal(&mut out, *v);
                out.append("LL}");
            },
            BuiltIn::Boolean(Boolean { value: b }) => {
                out.append("Bool");
                out.append("{");
                if *b {
                    out.append("true");
                } else {
                    out.append("false");
                }
                out.append("}");
            },
            BuiltIn::BuiltInFn(name) => {
                out.append("make_lazy<");
                out.append("decltype(");
                out.append(name.as_str());
                out.append("_G)");
                out.append(">(");
                out.append(name.as_str());
                out.append("_G)");
            },
        }
        proof {
            assert(out@ =~= value_code(Value::BuiltIn(*value)@));
        }
        out
    }

    /// The C++ code of a memory location: its identifier.
    pub fn emit_memory(&self, memory: &Memory) -> (res: String)
        ensures
            res@ == memory@,
    {
        memory.0.clone()
    }

    /// The C++ code of a value.
    pub fn emit_value(&self, value: &Value) -> (res: String)
        ensures
            res@ == value_code(value@),
    {
        match value {
            Value::BuiltIn(b) => self.emit_builtin(b),
            Value::Memory(m) => self.emit_memory(m),
        }
    }

    /// The C++ code of values, separated by commas.
    pub fn emit_value_list(&self, values: &Vec<Value>) -> (res: String)
        ensures
            res@ == value_list_code(values_view(values@)),
    {
        let mut parts: Vec<String> = Vec::new();
        let mut i: usize = 0;
        while i < values.len()
            invariant
                i <= values.len(),
                parts@.len() == i,
                forall|j: int| 0 <= j < i ==> (#[trigger] parts@[j])@ == value_code(values@[j]@),
            decreases values.len() - i,
        {
            parts.push(self.emit_value(&values[i]));
            i = i + 1;
        }
        let mut out = String::new();
        append_joined(&mut out, &parts, ", ");
        proof {
            assert(strings_view(parts@) =~= values_view(values@).map_values(|v: ValueModel| value_code(v)));
            assert(out@ =~= value_list_code(values_view(values@)));
        }
        out
    }

    /// The C++ code of an expression that is emitted directly.
    pub fn emit_expression(&self, expression: &Expression) -> (res: String)
        requires
            emits_directly(expression@),
        ensures
            res@ == expression_code(expression@),
    {
        match expression {
            Expression::ElementAccess(ElementAccess { value, idx }) => {
                let mut code = String::new();
                code.append("std::get<");
                push_decimal(&mut code, *idx as u64);
                code.append("ULL>(");
                let v = self.emit_value(value);
                code.append(v.as_str());
                code.append(")");
                let is_env = match value {
                    Value::Memory(Memory(id)) => *id == String::from_str("env"),
                    _ => false,
                };
                proof {
                    assert(code@ =~= "std::get<"@ + decimal(*idx as nat) + "ULL>("@ + value_code(value@) + ")"@);
                    assert(is_env == (value@ == ValueModel::Memory("env"@)));
                }
                if is_env {
                    let mut wrapped = String::new();
                    wrapped.append("load_env(");
                    wrapped.append(code.as_str());
                    wrapped.append(")");
                    proof {
                        assert(wrapped@ =~= expression_code(expression@));
                    }
                    wrapped
                } else {
                    code
                }
            },
            Expression::Value(v) => self.emit_value(v),
            Expression::TupleExpression(TupleExpression(values)) => {
                let mut out = String::new();
                out.append("std::make_tuple(");
                let list = self.emit_value_list(values);
                out.append(list.as_str());
                out.append(")");
                proof {
                    assert(out@ =~= expression_code(expression@));
                }
                out
            },
            Expression::ConstructorCall(c) => self.emit_constructor_call(c),
            Expression::FnCall(f) => self.emit_fn_call(f),
            Expression::ClosureInstantiation(_) => {
                proof {
                    assert(false);
                }
                String::new()
            },
        }
    }

    /// The C++ code that waits for each memory location to be computed.
    pub fn emit_await(&self, await_: &Await) -> (res: String)
        ensures
            res@ == await_code(memories_view(await_.0@)),
    {
        let mut parts: Vec<String> = Vec::new();
        let mut i: usize = 0;
        while i < await_.0.len()
            invariant
                i <= await_.0.len(),
                parts@.len() == i,
                forall|j: int| 0 <= j < i ==> (#[trigger] parts@[j])@ == await_.0@[j]@,
            decreases await_.0.len() - i,
        {
            parts.push(self.emit_memory(&await_.0[i]));
            i = i + 1;
        }
        let mut out = String::new();
        out.append("WorkManager::await(");
        append_joined(&mut out, &parts, ",");
        out.append(");");
        proof {
            assert(strings_view(parts@) =~= memories_view(await_.0@));
            assert(out@ =~= await_code(memories_view(await_.0@)));
        }
        out
    }

    /// The C++ code of a call of a built-in function or of a function held in memory.
    pub fn emit_fn_call(&self, fn_call: &FnCall) -> (res: String)
        requires
            fn_call.fn_@ is Memory || fn_call.fn_@ is BuiltInFn,
        ensures
            res@ == fn_call_code(fn_call.fn_@, values_view(fn_call.args@)),
    {
        let args_code = self.emit_value_list(&fn_call.args);
        let mut out = String::new();
        match &fn_call.fn_ {
            Value::BuiltIn(BuiltIn::BuiltInFn(name)) => {
                out.append(name.as_str());
                out.append("(");
                out.append(args_code.as_str());
                out.append(")");
            },
            Value::Memory(memory) => {
                let id = self.emit_memory(memory);
                out.append("fn_call(");
                out.append("extract_lazy(");
                out.append(id.as_str());
                if args_code.as_str().unicode_len() == 0 {
                    out.append(")");
                } else {
                    out.append("),");
                    out.append(args_code.as_str());
                }
                out.append(")");
            },
            _ => {
                proof {
                    assert(false);
                }
            },
        }
        proof {
            assert(out@ =~= fn_call_code(fn_call.fn_@, values_view(fn_call.args@)));
        }
        out
    }

    /// The C++ code of a constructor call.
    pub fn emit_constructor_call(&self, constructor_call: &ConstructorCall) -> (res: String)
        ensures
            res@ == constructor_code(constructor_call.type_@, constructor_call.idx, match constructor_call.data {
                None => None,
                Some((n, v)) => Some((n@, v@)),
            }),
    {
        let mut out = String::new();
        out.append(constructor_call.type_.as_str());
        out.append("{");
        out.append("std::integral_constant<std::size_t,");
        push_decimal(&mut out, constructor_call.idx as u64);
        out.append(">()");
        match &constructor_call.data {
            None => {},
            Some((name, value)) => {
                out.append(", ");
                out.append(name.as_str());
                out.append("{ensure_lazy(");
                let v = self.emit_value(value);
                out.append(v.as_str());
                out.append(")}");
            },
        }
        out.append("}");
        proof {
            assert(out@ =~= constructor_code(constructor_call.type_@, constructor_call.idx, match constructor_call.data {
                None => None,
                Some((n, v)) => Some((n@, v@)),
            }));
        }
        out
    }

    /// The C++ declaration of a memory location.
    pub fn emit_declaration_code(&self, declaration: &Declaration) -> (res: String)
        ensures
            res@ == declaration_code(declaration.type_@, declaration.memory@),
    {
        let mut out = self.emit_lazy_type(&declaration.type_);
        out.append(" ");
        out.append(declaration.memory.0.as_str());
        out.append(";");
        proof {
            assert(out@ =~= declaration_code(declaration.type_@, declaration.memory@));
        }
        out
    }

    /// The C++ code of an allocator for a cycle of closures, and where the
    /// allocator holds each closure.
    pub fn emit_allocation(&self, allocation: &Allocation) -> (res: (String, Vec<(Memory, (String, usize))>))
        ensures
            res.0@ == allocation_code(allocation.name@, allocation_fns_view(allocation.fns@), allocation.target@),
            slots_view(res.1@)
                == allocation_slots(allocation_fns_view(allocation.fns@), allocation.target@),
    {
        let ghost fns = allocation_fns_view(allocation.fns@);
        let mut fields: Vec<String> = Vec::new();
        let mut slots: Vec<(Memory, (String, usize))> = Vec::new();
        let mut i: usize = 0;
        while i < allocation.fns.len()
            invariant
                i <= allocation.fns.len(),
                fns == allocation_fns_view(allocation.fns@),
                fields@.len() == i,
                slots@.len() == i,
                forall|j: int| 0 <= j < i ==> (#[trigger] fields@[j])@ == allocator_field_code(j as nat, fns[j].1),
                forall|j: int| 0 <= j < i ==> (#[trigger] slots@[j]).0@ == fns[j].0 && slots@[j].1.0@ == allocation.target@
                    && slots@[j].1.1 == j,
            decreases allocation.fns.len() - i,
        {
            let target = self.emit_memory(&allocation.target);
            slots.push((Memory(allocation.fns[i].0.0.clone()), (target, i)));
            let mut field = String::new();
            field.append("ClosureFnT<remove_lazy_t<typename ");
            field.append(allocation.fns[i].1.as_str());
            field.append("::EnvT>, typename ");
            field.append(allocation.fns[i].1.as_str());
            field.append("::Fn> _");
            push_decimal(&mut field, i as u64);
            field.append(";");
            proof {
                assert(field@ =~= allocator_field_code(i as nat, fns[i as int].1));
            }
            fields.push(field);
            i = i + 1;
        }
        let mut code = String::new();
        code.append("struct ");
        code.append(allocation.name.as_str());
        code.append(" { ");
        append_joined(&mut code, &fields, "\n");
        code.append(" };");
        code.append(" ");
        code.append("std::shared_ptr<");
        code.append(allocation.name.as_str());
        code.append("> ");
        code.append(allocation.target.0.as_str());
        code.append(" = std::make_shared<");
        code.append(allocation.name.as_str());
        code.append(">();");
        proof {
            assert(strings_view(fields@) =~= Seq::new(fns.len(), |i: int| allocator_field_code(i as nat, fns[i].1)));
            assert(code@ =~= allocation_code(allocation.name@, fns, allocation.target@));
            assert(slots_view(slots@) =~= allocation_slots(fns, allocation.target@));
        }
        (code, slots)
    }
}

// ---------------------------------------------------------------------------
// Statements.

/// The C++ code of an assignment, given the memory locations already declared.
pub open spec fn assignment_code(target: Seq<char>, value: ExpressionModel, declared: Set<Seq<char>>) -> Seq<char> {
    match value {
        ExpressionModel::ClosureInstantiation(name, None) =>
            target + " = make_lazy<remove_lazy_t<decltype("@ + target + ")>>("@ + name + "::G);"@,
        ExpressionModel::ClosureInstantiation(name, Some(env)) =>
            "std::dynamic_pointer_cast<ClosureFnT<remove_lazy_t<typename "@ + name
                + "::EnvT>,remove_shared_ptr_t<remove_lazy_t<decltype("@ + target + ")>>>>("@ + target
                + "->lvalue())->env = store_env<typename "@ + name + "::EnvT>("@ + value_code(env) + ");"@,
        _ => if declared.contains(target) {
            target + " = ensure_lazy("@ + expression_code(value) + ");"@
        } else {
            "auto "@ + target + " = "@ + expression_code(value) + ";"@
        },
    }
}

/// Whether a statement, and every statement nested in it, can be emitted: its
/// expressions are emitted directly or instantiate closures, and a match has a
/// constructor name for each branch.
pub open spec fn statement_emittable(s: StatementModel) -> bool
    decreases s,
{
    match s {
        StatementModel::Assignment(_, e) => e is ClosureInstantiation || emits_directly(e),
        StatementModel::If(_, t, f) => statements_emittable(t) && statements_emittable(f),
        StatementModel::Match(_, types, bs, _) => bs.len() <= types.len() && forall|i: int|
            0 <= i < bs.len() ==> statements_emittable(#[trigger] bs[i].1),
        _ => true,
    }
}

pub open spec fn statements_emittable(st: Seq<StatementModel>) -> bool
    decreases st,
{
    forall|i: int| 0 <= i < st.len() ==> statement_emittable(#[trigger] st[i])
}

/// The C++ code of a statement, given the memory locations already declared.
pub open spec fn statement_code(s: StatementModel, declared: Set<Seq<char>>) -> Seq<char>
    decreases s, 0nat,
{
    match s {
        StatementModel::Await(ms) => await_code(ms),
        StatementModel::Assignment(target, value) => assignment_code(target, value, declared),
        StatementModel::If(c, t, f) => "if (extract_lazy("@ + value_code(c) + ")) { "@ + statements_code(t, declared)
            + " } else { "@ + statements_code(f, declared) + " }"@,
        StatementModel::Declaration(t, m) => declaration_code(t, m),
        StatementModel::Allocation(name, fns, target) => allocation_code(name, fns, target),
        StatementModel::Match(subject, types, bs, aux) =>
            "auto "@ + aux + " = extract_lazy("@ + value_code(subject) + ");"@
                + " switch ("@ + aux + ".tag) { "@ + join(branch_codes(bs, types, aux, declared), "\n"@) + " }"@,
    }
}

/// The code that binds the data of a matched constructor, if the branch takes it.
pub open spec fn branch_assignment_code(target: Option<Seq<char>>, ctor: Seq<char>, aux: Seq<char>) -> Seq<char> {
    match target {
        Some(id) => lazy_type_code(MachineTypeModel::Named(ctor + "::type"@)) + " "@ + id
            + " = reinterpret_cast<"@ + ctor + "*>(&"@ + aux + ".value)->value;"@,
        None => Seq::empty(),
    }
}

/// The codes of the branches of a match, the `i`-th for the `i`-th constructor.
pub open spec fn branch_codes(
    bs: Seq<(Option<Seq<char>>, Seq<StatementModel>)>,
    types: Seq<Seq<char>>,
    aux: Seq<char>,
    declared: Set<Seq<char>>,
) -> Seq<Seq<char>>
    decreases bs, 0nat,
{
    if bs.len() == 0 {
        Seq::empty()
    } else {
        let i = bs.len() - 1;
        branch_codes(bs.drop_last(), types, aux, declared).push(
            "case "@ + decimal(i as nat) + "ULL : { "@ + branch_assignment_code(bs[i].0, types[i], aux) + " "@
                + statements_code(bs[i].1, declared) + " break; }"@,
        )
    }
}

/// The codes of the statements that are neither declarations nor allocations, in order.
pub open spec fn other_codes(st: Seq<StatementModel>, declared: Set<Seq<char>>) -> Seq<Seq<char>>
    decreases st, 0nat,
{
    if st.len() == 0 {
        Seq::empty()
    } else {
        let rest = other_codes(st.drop_last(), declared);
        let s = st.last();
        if s is Declaration || s is Allocation { rest } else { rest.push(statement_code(s, declared)) }
    }
}

/// The memory locations declared by declaration statements.
pub open spec fn declared_memories(st: Seq<StatementModel>) -> Set<Seq<char>>
    decreases st.len(),
{
    if st.len() == 0 {
        Set::empty()
    } else {
        match st.last() {
            StatementModel::Declaration(_, m) => declared_memories(st.drop_last()).insert(m),
            _ => declared_memories(st.drop_last()),
        }
    }
}

/// The codes of the declaration statements, in order.
pub open spec fn declaration_codes(st: Seq<StatementModel>) -> Seq<Seq<char>>
    decreases st.len(),
{
    if st.len() == 0 {
        Seq::empty()
    } else {
        match st.last() {
            StatementModel::Declaration(t, m) => declaration_codes(st.drop_last()).push(declaration_code(t, m)),
            _ => declaration_codes(st.drop_last()),
        }
    }
}

/// The codes of the allocation statements, in order.
pub open spec fn allocation_codes(st: Seq<StatementModel>) -> Seq<Seq<char>>
    decreases st.len(),
{
    if st.len() == 0 {
        Seq::empty()
    } else {
        match st.last() {
            StatementModel::Allocation(n, fns, t) => allocation_codes(st.drop_last()).push(allocation_code(n, fns, t)),
            _ => allocation_codes(st.drop_last()),
        }
    }
}

/// Where the allocators of the allocation statements hold their closures, in order.
pub open spec fn statements_slots(st: Seq<StatementModel>) -> Seq<(Seq<char>, (Seq<char>, usize))>
    decreases st.len(),
{
    if st.len() == 0 {
        Seq::empty()
    } else {
        let rest = statements_slots(st.drop_last());
        match st.last() {
            StatementModel::Allocation(_, fns, target) => rest + allocation_slots(fns, target),
            _ => rest,
        }
    }
}

/// The allocator and field that hold a closure, from the last slot recorded for it.
pub open spec fn lookup_slot(slots: Seq<(Seq<char>, (Seq<char>, usize))>, m: Seq<char>) -> Option<(Seq<char>, usize)>
    decreases slots.len(),
{
    if slots.len() == 0 {
        None
    } else if slots.last().0 == m {
        Some(slots.last().1)
    } else {
        lookup_slot(slots.drop_last(), m)
    }
}

/// The code that sets up a closure before its environment is stored.
pub open spec fn predefinition_code(target: Seq<char>, name: Seq<char>, slots: Seq<(Seq<char>, (Seq<char>, usize))>) -> Seq<char> {
    match lookup_slot(slots, target) {
        Some((allocator, idx)) => target + " = setup_closure<"@ + name + ">("@ + allocator + ", "@ + allocator + "->_"@
            + decimal(idx as nat) + ");"@,
        None => target + " = setup_closure<"@ + name + ">();"@,
    }
}

/// The codes that set up the closures instantiated with an environment, in order.
pub open spec fn setup_codes(st: Seq<StatementModel>, slots: Seq<(Seq<char>, (Seq<char>, usize))>) -> Seq<Seq<char>>
    decreases st.len(),
{
    if st.len() == 0 {
        Seq::empty()
    } else {
        match st.last() {
            StatementModel::Assignment(target, ExpressionModel::ClosureInstantiation(name, Some(_))) =>
                setup_codes(st.drop_last(), slots).push(predefinition_code(target, name, slots)),
            _ => setup_codes(st.drop_last(), slots),
        }
    }
}

/// The C++ code of a sequence of statements: declarations first, then
/// allocators, then the setup of closures, then the other statements in order,
/// with the declared locations of the sequence added to those already declared.
pub open spec fn statements_code(st: Seq<StatementModel>, declared: Set<Seq<char>>) -> Seq<char>
    decreases st, 1nat,
{
    join(declaration_codes(st), "\n"@)
        + "\n"@
        + join(allocation_codes(st), "\n"@)
        + "\n"@
        + join(setup_codes(st, statements_slots(st)), "\n"@)
        + "\n"@
        + join(other_codes(st, declared + declared_memories(st)), "\n"@)
}

/// The identifiers of a sequence of memory locations, as a set.
pub open spec fn memory_set(ms: Seq<Memory>) -> Set<Seq<char>> {
    memories_view(ms).to_set()
}

/// Adding a location to a sequence adds it to the set of its identifiers.
pub proof fn lemma_memory_set_push(ms: Seq<Memory>, m: Seq<char>)
    ensures
        memories_view(ms).push(m).to_set() == memory_set(ms).insert(m),
{
    let v = memories_view(ms);
    assert forall|x: Seq<char>| v.push(m).contains(x) <==> (v.contains(x) || x == m) by {
        if v.contains(x) {
            let k = choose|k: int| 0 <= k < v.len() && v[k] == x;
            assert(v.push(m)[k] == x);
        }
        if x == m {
            assert(v.push(m)[v.len() as int] == x);
        }
        if v.push(m).contains(x) {
            let k = choose|k: int| 0 <= k < v.len() + 1 && v.push(m)[k] == x;
            if k < v.len() {
                assert(v[k] == x);
            }
        }
    }
    assert forall|x: Seq<char>| v.push(m).to_set().contains(x) == memory_set(ms).insert(m).contains(x) by {
        assert(v.push(m).to_set().contains(x) == v.push(m).contains(x));
        assert(memory_set(ms).contains(x) == v.contains(x));
    }
    assert(v.push(m).to_set() =~= memory_set(ms).insert(m));
}

/// Whether a memory location is among the declared ones.
fn is_declared(declared: &Vec<Memory>, memory: &Memory) -> (res: bool)
    ensures
        res == memory_set(declared@).contains(memory@),
{
    let mut i: usize = 0;
    while i < declared.len()
        invariant
            i <= declared.len(),
            forall|j: int| 0 <= j < i ==> declared@[j]@ != memory@,
        decreases declared.len() - i,
    {
        if declared[i].0 == memory.0 {
            proof {
                assert(memories_view(declared@)[i as int] == memory@);
            }
            return true;
        }
        i = i + 1;
    }
    proof {
        assert(!memories_view(declared@).contains(memory@));
    }
    false
}

/// The slot recorded last for a memory location.
fn find_slot(slots: &Vec<(Memory, (String, usize))>, memory: &Memory) -> (res: Option<(String, usize)>)
    ensures
        match (res, lookup_slot(slots_view(slots@), memory@)) {
            (None, None) => true,
            (Some((a, i)), Some((b, j))) => a@ == b && i == j,
            _ => false,
        },
{
    let ghost sv = slots_view(slots@);
    let mut k: usize = slots.len();
    proof {
        assert(sv.take(k as int) =~= sv);
    }
    while k > 0
        invariant
            k <= slots.len(),
            sv == slots_view(slots@),
            lookup_slot(sv, memory@) == lookup_slot(sv.take(k as int), memory@),
        decreases k,
    {
        proof {
            assert(sv.take(k as int).drop_last() =~= sv.take(k - 1));
        }
        if slots[k - 1].0.0 == memory.0 {
            return Some((slots[k - 1].1.0.clone(), slots[k - 1].1.1));
        }
        k = k - 1;
    }
    None
}

impl Emitter {
    /// The C++ code of an assignment, given the memory locations already declared.
    pub fn emit_assignment(&self, assignment: &Assignment, declared: &Vec<Memory>) -> (res: String)
        requires
            statement_emittable(Statement::Assignment(*assignment)@),
        ensures
            res@ == assignment_code(assignment.target@, assignment.value@, memory_set(declared@)),
    {
        let id = &assignment.target.0;
        let mut out = String::new();
        match &assignment.value {
            Expression::ClosureInstantiation(c) => {
                match &c.env {
                    None => {
                        out.append(id.as_str());
                        out.append(" = make_lazy<remove_lazy_t<decltype(");
                        out.append(id.as_str());
                        out.append(")>>(");
                        out.append(c.name.as_str());
                        out.append("::G);");
                    },
                    Some(env) => {
                        out.append("std::dynamic_pointer_cast<ClosureFnT<remove_lazy_t<typename ");
                        out.append(c.name.as_str());
                        out.append("::EnvT>,remove_shared_ptr_t<remove_lazy_t<decltype(");
                        out.append(id.as_str());
                        out.append(")>>>>(");
                        out.append(id.as_str());
                        out.append("->lvalue())->env = store_env<typename ");
                        out.append(c.name.as_str());
                        out.append("::EnvT>(");
                        let v = self.emit_value(env);
                        out.append(v.as_str());
                        out.append(");");
                    },
                }
            },
            value => {
                let value_code = self.emit_expression(value);
                if is_declared(declared, &assignment.target) {
                    out.append(id.as_str());
                    out.append(" = ensure_lazy(");
                    out.append(value_code.as_str());
                    out.append(");");
                } else {
                    out.append("auto ");
                    out.append(id.as_str());
                    out.append(" = ");
                    out.append(value_code.as_str());
                    out.append(";");
                }
            },
        }
        proof {
            assert(out@ =~= assignment_code(assignment.target@, assignment.value@, memory_set(declared@)));
        }
        out
    }
}


impl Emitter {
    /// The C++ code of a statement, given the memory locations already declared.
    pub fn emit_statement(&self, statement: &Statement, declared: &Vec<Memory>) -> (res: String)
        requires
            statement_emittable(statement@),
        ensures
            res@ == statement_code(statement@, memory_set(declared@)),
        decreases statement@, 0nat,
    {
        match statement {
            Statement::Await(a) => self.emit_await(a),
            Statement::Assignment(a) => self.emit_assignment(a, declared),
            Statement::Declaration(d) => self.emit_declaration_code(d),
            Statement::Allocation(a) => self.emit_allocation(a).0,
            Statement::IfStatement(i) => {
                proof {
                    lemma_if_view(*i);
                }
                let condition = self.emit_value(&i.condition);
                let if_branch = self.emit_statements(&i.branches.0, declared);
                let else_branch = self.emit_statements(&i.branches.1, declared);
                let mut out = String::new();
                out.append("if (extract_lazy(");
                out.append(condition.as_str());
                out.append(")) { ");
                out.append(if_branch.as_str());
                out.append(" } else { ");
                out.append(else_branch.as_str());
                out.append(" }");
                proof {
                    assert(out@ =~= statement_code(statement@, memory_set(declared@)));
                }
                out
            },
            Statement::MatchStatement(m) => {
                proof {
                    lemma_match_statement_view(*m);
                }
                let ghost bs = statement@->Match_2;
                let ghost types = names_view(m.expression.1.0@);
                let ghost d = memory_set(declared@);
                let subject = &m.auxiliary_memory.0;
                let types_exec = &m.expression.1.0;
                let mut codes: Vec<String> = Vec::new();
                let mut i: usize = 0;
                while i < m.branches.len()
                    invariant
                        i <= m.branches.len(),
                        bs == m.branches@.map_values(|b: MatchBranch| match_branch_view(b)),
                        bs == statement@->Match_2,
                        statement@ is Match,
                        statement_emittable(statement@),
                        types == names_view(types_exec@),
                        types == statement@->Match_1,
                        d == memory_set(declared@),
                        strings_view(codes@) == branch_codes(bs.take(i as int), types, subject@, d),
                    decreases m.branches.len() - i,
                {
                    let branch = &m.branches[i];
                    proof {
                        assert(bs[i as int] == match_branch_view(*branch));
                        assert(statements_emittable(bs[i as int].1));
                        assert(bs.take(i + 1).drop_last() =~= bs.take(i as int));
                    }
                    let mut c = String::new();
                    c.append("case ");
                    push_decimal(&mut c, i as u64);
                    c.append("ULL : { ");
                    let ghost c0 = c@;
                    proof {
                        assert(types[i as int] == types_exec@[i as int]@);
                    }
                    match &branch.target {
                        Some(target) => {
                            proof {
                                assert(bs[i as int].0 == Some(target@));
                            }
                            c.append("LazyT<");
                            c.append(types_exec[i].as_str());
                            c.append("::type");
                            c.append(">");
                            c.append(" ");
                            c.append(target.0.as_str());
                            c.append(" = reinterpret_cast<");
                            c.append(types_exec[i].as_str());
                            c.append("*>(&");
                            c.append(subject.as_str());
                            c.append(".value)->value;");
                            proof {
                                assert(c@ =~= c0 + branch_assignment_code(bs[i as int].0, types[i as int], subject@));
                            }
                        },
                        None => {
                            proof {
                                assert(bs[i as int].0 is None);
                                assert(c@ =~= c0 + branch_assignment_code(bs[i as int].0, types[i as int], subject@));
                            }
                        },
                    }
                    c.append(" ");
                    let body = self.emit_statements(&branch.statements, declared);
                    c.append(body.as_str());
                    c.append(" break; }");
                    proof {
                        assert(c@ =~= "case "@ + decimal(i as nat) + "ULL : { "@
                            + branch_assignment_code(bs[i as int].0, types[i as int], subject@) + " "@
                            + statements_code(bs[i as int].1, d) + " break; }"@);
                    }
                    codes.push(c);
                    proof {
                        assert(strings_view(codes@) =~= branch_codes(bs.take(i + 1), types, subject@, d));
                    }
                    i = i + 1;
                }
                proof {
                    assert(bs.take(m.branches.len() as int) =~= bs);
                }
                let value = self.emit_value(&m.expression.0);
                let mut out = String::new();
                out.append("auto ");
                out.append(subject.as_str());
                out.append(" = extract_lazy(");
                out.append(value.as_str());
                out.append(");");
                out.append(" switch (");
                out.append(subject.as_str());
                out.append(".tag) { ");
                append_joined(&mut out, &codes, "\n");
                out.append(" }");
                proof {
                    assert(out@ =~= statement_code(statement@, memory_set(declared@)));
                }
                out
            },
        }
    }

    /// The C++ code of a sequence of statements, given the memory locations
    /// already declared.
    pub fn emit_statements(&self, statements: &Vec<Statement>, declared: &Vec<Memory>) -> (res: String)
        requires
            statements_emittable(statements_view(statements@)),
        ensures
            res@ == statements_code(statements_view(statements@), memory_set(declared@)),
        decreases statements_view(statements@), 1nat,
    {
        let ghost st = statements_view(statements@);
        let n = statements.len();
        let mut declaration_parts: Vec<String> = Vec::new();
        let mut all_declared: Vec<Memory> = Vec::new();
        let mut i: usize = 0;
        while i < declared.len()
            invariant
                i <= declared.len(),
                all_declared@.len() == i,
                memories_view(all_declared@) == memories_view(declared@).take(i as int),
            decreases declared.len() - i,
        {
            let ghost before = all_declared@;
            all_declared.push(Memory(declared[i].0.clone()));
            proof {
                assert(all_declared@[i as int]@ == declared@[i as int]@);
                assert(memories_view(all_declared@) =~= memories_view(before).push(declared@[i as int]@));
                assert(memories_view(all_declared@) =~= memories_view(declared@).take(i + 1));
            }
            i = i + 1;
        }
        proof {
            assert(memories_view(declared@).take(declared.len() as int) =~= memories_view(declared@));
            assert(st.take(0) =~= Seq::<StatementModel>::empty());
            assert(memory_set(all_declared@) =~= memory_set(declared@) + declared_memories(st.take(0)));
        }
        i = 0;
        while i < n
            invariant
                i <= n,
                n == statements@.len(),
                st == statements_view(statements@),
                strings_view(declaration_parts@) == declaration_codes(st.take(i as int)),
                memory_set(all_declared@) == memory_set(declared@) + declared_memories(st.take(i as int)),
            decreases n - i,
        {
            proof {
                assert(st.take(i + 1).drop_last() =~= st.take(i as int));
                assert(st[i as int] == statements@[i as int]@);
            }
            match &statements[i] {
                Statement::Declaration(d) => {
                    let code = self.emit_declaration_code(d);
                    declaration_parts.push(code);
                    let ghost before = all_declared@;
                    all_declared.push(Memory(d.memory.0.clone()));
                    proof {
                        assert(memories_view(all_declared@) =~= memories_view(before).push(d.memory@));
                        lemma_memory_set_push(before, d.memory@);
                        assert(memory_set(all_declared@) =~= memory_set(before).insert(d.memory@));
                    }
                },
                _ => {},
            }
            proof {
                assert(strings_view(declaration_parts@) =~= declaration_codes(st.take(i + 1)));
                assert(memory_set(all_declared@) =~= memory_set(declared@) + declared_memories(st.take(i + 1)));
            }
            i = i + 1;
        }
        let mut allocation_parts: Vec<String> = Vec::new();
        let mut slots: Vec<(Memory, (String, usize))> = Vec::new();
        i = 0;
        while i < n
            invariant
                i <= n,
                n == statements@.len(),
                st == statements_view(statements@),
                strings_view(allocation_parts@) == allocation_codes(st.take(i as int)),
                slots_view(slots@) == statements_slots(st.take(i as int)),
            decreases n - i,
        {
            proof {
                assert(st.take(i + 1).drop_last() =~= st.take(i as int));
                assert(st[i as int] == statements@[i as int]@);
            }
            match &statements[i] {
                Statement::Allocation(a) => {
                    let (code, mut new_slots) = self.emit_allocation(a);
                    allocation_parts.push(code);
                    let ghost before = slots@;
                    let ghost added = new_slots@;
                    slots.append(&mut new_slots);
                    proof {
                        assert(slots_view(slots@) =~= slots_view(before) + slots_view(added));
                    }
                },
                _ => {},
            }
            proof {
                assert(strings_view(allocation_parts@) =~= allocation_codes(st.take(i + 1)));
                assert(slots_view(slots@) =~= statements_slots(st.take(i + 1)));
            }
            i = i + 1;
        }
        proof {
            assert(st.take(n as int) =~= st);
        }
        let mut setup_parts: Vec<String> = Vec::new();
        i = 0;
        while i < n
            invariant
                i <= n,
                n == statements@.len(),
                st == statements_view(statements@),
                slots_view(slots@) == statements_slots(st),
                strings_view(setup_parts@) == setup_codes(st.take(i as int), statements_slots(st)),
            decreases n - i,
        {
            proof {
                assert(st.take(i + 1).drop_last() =~= st.take(i as int));
                assert(st[i as int] == statements@[i as int]@);
            }
            match &statements[i] {
                Statement::Assignment(a) => match &a.value {
                    Expression::ClosureInstantiation(c) => if c.env.is_some() {
                        let id = &a.target.0;
                        let mut code = String::new();
                        code.append(id.as_str());
                        code.append(" = setup_closure<");
                        code.append(c.name.as_str());
                        match find_slot(&slots, &a.target) {
                            Some((allocator, idx)) => {
                                code.append(">(");
                                code.append(allocator.as_str());
                                code.append(", ");
                                code.append(allocator.as_str());
                                code.append("->_");
                                push_decimal(&mut code, idx as u64);
                                code.append(");");
                            },
                            None => {
                                code.append(">();");
                            },
                        }
                        proof {
                            assert(code@ =~= predefinition_code(a.target@, c.name@, statements_slots(st)));
                        }
                        setup_parts.push(code);
                    },
                    _ => {},
                },
                _ => {},
            }
            proof {
                assert(strings_view(setup_parts@) =~= setup_codes(st.take(i + 1), statements_slots(st)));
            }
            i = i + 1;
        }
        let ghost all = memory_set(declared@) + declared_memories(st);
        let mut other_parts: Vec<String> = Vec::new();
        i = 0;
        while i < n
            invariant
                i <= n,
                n == statements@.len(),
                st == statements_view(statements@),
                statements_emittable(st),
                all == memory_set(all_declared@),
                strings_view(other_parts@) == other_codes(st.take(i as int), all),
            decreases n - i,
        {
            proof {
                assert(st.take(i + 1).drop_last() =~= st.take(i as int));
                assert(st[i as int] == statements@[i as int]@);
                assert(statement_emittable(st[i as int]));
            }
            match &statements[i] {
                Statement::Declaration(_) => {},
                Statement::Allocation(_) => {},
                s => {
                    let code = self.emit_statement(s, &all_declared);
                    other_parts.push(code);
                },
            }
            proof {
                assert(strings_view(other_parts@) =~= other_codes(st.take(i + 1), all));
            }
            i = i + 1;
        }
        let mut out = String::new();
        append_joined(&mut out, &declaration_parts, "\n");
        out.append("\n");
        append_joined(&mut out, &allocation_parts, "\n");
        out.append("\n");
        append_joined(&mut out, &setup_parts, "\n");
        out.append("\n");
        append_joined(&mut out, &other_parts, "\n");
        proof {
            assert(out@ =~= statements_code(st, memory_set(declared@)));
        }
        out
    }
}


// ---------------------------------------------------------------------------
// Function definitions and programs.

/// The types of the arguments of a function definition, in order.
pub open spec fn argument_types(args: Seq<(Memory, MachineType)>) -> Seq<MachineTypeModel>
    decreases args.len(),
{
    if args.len() == 0 {
        Seq::empty()
    } else {
        argument_types(args.drop_last()).push(args.last().1@)
    }
}

/// The parameters of a function definition as C++ code, in order.
pub open spec fn argument_codes(args: Seq<(Memory, MachineType)>) -> Seq<Seq<char>>
    decreases args.len(),
{
    if args.len() == 0 {
        Seq::empty()
    } else {
        argument_codes(args.drop_last()).push(lazy_type_code(args.last().1@) + " &"@ + args.last().0@)
    }
}

/// The types that a function shows to its callers: its return type, then its argument types.
pub open spec fn external_types_code(f: FnDef) -> Seq<char> {
    join(seq![type_code(f.ret.1@)] + type_codes(argument_types(f.arguments@)), ","@)
}

/// The base class of the struct that a function definition becomes.
pub open spec fn fn_base_code(f: FnDef) -> Seq<char> {
    if f.env@.len() == 0 {
        "TypedClosureI<Empty,"@ + external_types_code(f) + ">"@
    } else {
        "TypedClosureI<"@ + type_code(MachineTypeModel::Tuple(machine_types_view(f.env@))) + ","@
            + external_types_code(f) + ">"@
    }
}

/// The opening of the C++ struct that a function definition becomes, up to its body.
pub open spec fn fn_head_code(f: FnDef) -> Seq<char> {
    let base = fn_base_code(f);
    let header = lazy_type_code(f.ret.1@) + " body("@ + join(argument_codes(f.arguments@), ","@) + ") override"@;
    "struct "@ + f.name@ + " : "@ + base + " { "@ + ("using "@ + base + "::"@ + "TypedClosureI"@ + ";"@) + " "@ + header
}

/// The members of the C++ struct that follow the body of a function definition.
pub open spec fn fn_tail_code(f: FnDef) -> Seq<char> {
    let ext = external_types_code(f);
    let no_env = f.env@.len() == 0;
    let env_ptr = if no_env { Seq::empty() } else { ", const EnvT &env"@ };
    let replication = if no_env { "args"@ } else { "args, env"@ };
    let instance = if no_env {
        "static inline FnT<"@ + ext + "> G = std::make_shared<TypedClosureG<Empty,"@ + ext + ">>(init);"@
    } else {
        Seq::empty()
    };
    let size = "constexpr std::size_t lower_size_bound() const override { return "@ + decimal(f.size_bounds.0 as nat)
        + "; }; constexpr std::size_t upper_size_bound() const override { return "@ + decimal(f.size_bounds.1 as nat)
        + "; };"@;
    let recursive = "constexpr bool is_recursive() const override { return "@ + bool_code(f.is_recursive) + "; };"@;
    let init = "static std::unique_ptr<TypedFnI<"@ + ext + ">> init(const ArgsT &args"@ + env_ptr
        + ") { return std::make_unique<"@ + f.name@ + ">("@ + replication + "); }"@;
    size + " "@ + recursive + " "@ + init + " "@ + instance
}

/// The C++ struct that a function definition becomes: a closure class whose
/// body runs the statements and returns the returned value.
pub open spec fn fn_def_code(f: FnDef) -> Seq<char> {
    let body = statements_code(statements_view(f.statements@), Set::empty()) + " "@
        + ("return ensure_lazy("@ + value_code(f.ret.0@) + ");"@);
    fn_head_code(f) + " { "@ + body + " } "@ + fn_tail_code(f) + " };"@
}

/// Whether a function definition can be emitted: every statement of its body can.
pub open spec fn fn_def_emittable(f: FnDef) -> bool {
    statements_emittable(statements_view(f.statements@))
}

impl Emitter {
    /// The types that a function shows to its callers, joined by commas.
    fn emit_external_types(&self, fn_def: &FnDef) -> (res: String)
        ensures
            res@ == external_types_code(*fn_def),
    {
        let mut parts: Vec<String> = Vec::new();
        parts.push(self.emit_type(&fn_def.ret.1));
        let ghost first = seq![type_code(fn_def.ret.1@)];
        let mut i: usize = 0;
        while i < fn_def.arguments.len()
            invariant
                i <= fn_def.arguments.len(),
                first == seq![type_code(fn_def.ret.1@)],
                strings_view(parts@) == first + type_codes(argument_types(fn_def.arguments@.take(i as int))),
            decreases fn_def.arguments.len() - i,
        {
            proof {
                assert(fn_def.arguments@.take(i + 1).drop_last() =~= fn_def.arguments@.take(i as int));
            }
            let ghost before = argument_types(fn_def.arguments@.take(i as int));
            let ghost p0 = parts@;
            let t = self.emit_type(&fn_def.arguments[i].1);
            parts.push(t);
            proof {
                assert(strings_view(parts@) =~= strings_view(p0).push(t@));
                let after = argument_types(fn_def.arguments@.take(i + 1));
                assert(after == before.push(fn_def.arguments@[i as int].1@));
                assert(after.drop_last() =~= before);
                assert(type_codes(after) == type_codes(before).push(type_code(fn_def.arguments@[i as int].1@)));
                assert(strings_view(parts@) =~= first + type_codes(argument_types(fn_def.arguments@.take(i + 1))));
            }
            i = i + 1;
        }
        proof {
            assert(fn_def.arguments@.take(fn_def.arguments.len() as int) =~= fn_def.arguments@);
        }
        let mut out = String::new();
        append_joined(&mut out, &parts, ",");
        out
    }

    /// The parameters of a function definition, joined by commas.
    fn emit_arguments(&self, fn_def: &FnDef) -> (res: String)
        ensures
            res@ == join(argument_codes(fn_def.arguments@), ","@),
    {
        let mut parts: Vec<String> = Vec::new();
        let mut i: usize = 0;
        while i < fn_def.arguments.len()
            invariant
                i <= fn_def.arguments.len(),
                strings_view(parts@) == argument_codes(fn_def.arguments@.take(i as int)),
            decreases fn_def.arguments.len() - i,
        {
            proof {
                assert(fn_def.arguments@.take(i + 1).drop_last() =~= fn_def.arguments@.take(i as int));
            }
            let mut part = self.emit_lazy_type(&fn_def.arguments[i].1);
            part.append(" &");
            part.append(fn_def.arguments[i].0.0.as_str());
            parts.push(part);
            proof {
                assert(strings_view(parts@) =~= argument_codes(fn_def.arguments@.take(i + 1)));
            }
            i = i + 1;
        }
        proof {
            assert(fn_def.arguments@.take(fn_def.arguments.len() as int) =~= fn_def.arguments@);
        }
        let mut out = String::new();
        append_joined(&mut out, &parts, ",");
        out
    }

    /// The opening of the C++ struct that a function definition becomes.
    fn emit_fn_head(&self, fn_def: &FnDef, external_types: &String) -> (res: String)
        requires
            external_types@ == external_types_code(*fn_def),
        ensures
            res@ == fn_head_code(*fn_def),
    {
        let mut base = String::new();
        if fn_def.env.len() == 0 {
            base.append("TypedClosureI<Empty,");
            base.append(external_types.as_str());
            base.append(">");
        } else {
            let env_types = self.emit_types(&fn_def.env);
            proof {
                lemma_type_codes(machine_types_view(fn_def.env@));
            }
            base.append("TypedClosureI<");
            base.append("TupleT<");
            append_joined(&mut base, &env_types, ",");
            base.append(">");
            base.append(",");
            base.append(external_types.as_str());
            base.append(">");
        }
        proof {
            assert(base@ =~= fn_base_code(*fn_def));
        }
        let mut out = String::new();
        out.append("struct ");
        out.append(fn_def.name.as_str());
        out.append(" : ");
        out.append(base.as_str());
        out.append(" { ");
        out.append("using ");
        out.append(base.as_str());
        out.append("::");
        out.append("TypedClosureI");
        out.append(";");
        out.append(" ");
        let ret_type = self.emit_lazy_type(&fn_def.ret.1);
        out.append(ret_type.as_str());
        out.append(" body(");
        let arguments = self.emit_arguments(fn_def);
        out.append(arguments.as_str());
        out.append(") override");
        proof {
            assert(out@ =~= fn_head_code(*fn_def));
        }
        out
    }

    /// The members of the C++ struct that follow the body of a function definition.
    fn emit_fn_tail(&self, fn_def: &FnDef, external_types: &String) -> (res: String)
        requires
            external_types@ == external_types_code(*fn_def),
        ensures
            res@ == fn_tail_code(*fn_def),
    {
        let no_env = fn_def.env.len() == 0;
        let mut out = String::new();
        out.append("constexpr std::size_t lower_size_bound() const override { return ");
        push_decimal(&mut out, fn_def.size_bounds.0 as u64);
        out.append("; }; constexpr std::size_t upper_size_bound() const override { return ");
        push_decimal(&mut out, fn_def.size_bounds.1 as u64);
        out.append("; };");
        out.append(" ");
        out.append("constexpr bool is_recursive() const override { return ");
        if fn_def.is_recursive {
            out.append("true");
        } else {
            out.append("false");
        }
        out.append("; };");
        out.append(" ");
        out.append("static std::unique_ptr<TypedFnI<");
        out.append(external_types.as_str());
        out.append(">> init(const ArgsT &args");
        if !no_env {
            out.append(", const EnvT &env");
        }
        out.append(") { return std::make_unique<");
        out.append(fn_def.name.as_str());
        out.append(">(");
        if no_env {
            out.append("args");
        } else {
            out.append("args, env");
        }
        out.append("); }");
        out.append(" ");
        if no_env {
            out.append("static inline FnT<");
            out.append(external_types.as_str());
            out.append("> G = std::make_shared<TypedClosureG<Empty,");
            out.append(external_types.as_str());
            out.append(">>(init);");
        }
        proof {
            assert(out@ =~= fn_tail_code(*fn_def));
        }
        out
    }

    /// The C++ struct that a function definition becomes.
    pub fn emit_fn_def(&self, fn_def: &FnDef) -> (res: String)
        requires
            fn_def_emittable(*fn_def),
        ensures
            res@ == fn_def_code(*fn_def),
    {
        let no_declarations: Vec<Memory> = Vec::new();
        proof {
            assert(memory_set(no_declarations@) =~= Set::<Seq<char>>::empty());
        }
        let statements_code = self.emit_statements(&fn_def.statements, &no_declarations);
        let ret_value = self.emit_value(&fn_def.ret.0);
        let external_types = self.emit_external_types(fn_def);
        let mut out = self.emit_fn_head(fn_def, &external_types);
        let ghost head = out@;
        out.append(" { ");
        out.append(statements_code.as_str());
        out.append(" ");
        out.append("return ensure_lazy(");
        out.append(ret_value.as_str());
        out.append(");");
        out.append(" } ");
        let tail = self.emit_fn_tail(fn_def, &external_types);
        out.append(tail.as_str());
        out.append(" };");
        proof {
            lemma_fn_def_code(*fn_def, head, statements_code@, ret_value@, tail@);
            assert(out@ =~= head + " { "@ + statements_code@ + " "@ + "return ensure_lazy("@ + ret_value@ + ");"@ + " } "@
                + tail@ + " };"@);
        }
        out
    }
}

/// The code of a function definition from the code of its parts.
proof fn lemma_fn_def_code(f: FnDef, head: Seq<char>, body: Seq<char>, ret: Seq<char>, tail: Seq<char>)
    requires
        head == fn_head_code(f),
        body == statements_code(statements_view(f.statements@), Set::empty()),
        ret == value_code(f.ret.0@),
        tail == fn_tail_code(f),
    ensures
        fn_def_code(f) == head + " { "@ + body + " "@ + "return ensure_lazy("@ + ret + ");"@ + " } "@ + tail + " };"@,
{
    assert(fn_def_code(f) =~= head + " { "@ + body + " "@ + "return ensure_lazy("@ + ret + ");"@ + " } "@ + tail + " };"@);
}

// ---------------------------------------------------------------------------
// Type definitions.

/// The part of a name before its first `C`: the name of a constructor, such as
/// `Cons_Int`, is cut to the name that the search for its type definition uses.
pub open spec fn before_c(u: Seq<char>) -> Seq<char>
    decreases u.len(),
{
    if u.len() == 0 {
        u
    } else if u[0] == 'C' {
        Seq::empty()
    } else {
        seq![u[0]] + before_c(u.drop_first())
    }
}

/// The index of the last type definition with a name.
pub open spec fn lookup_type_def(defs: Seq<TypeDefModel>, name: Seq<char>) -> Option<int>
    decreases defs.len(),
{
    if defs.len() == 0 {
        None
    } else if defs.last().name == name {
        Some(defs.len() - 1)
    } else {
        lookup_type_def(defs.drop_last(), name)
    }
}

/// Whether every type that a definition uses leads to a type definition.
pub open spec fn uses_resolve(defs: Seq<TypeDefModel>) -> bool {
    forall|i: int, k: int|
        0 <= i < defs.len() && 0 <= k < directly_used(defs[i].constructors).len()
            ==> lookup_type_def(defs, before_c(#[trigger] directly_used(defs[i].constructors)[k])) is Some
}

/// Whether the names visited so far are distinct names of type definitions.
pub open spec fn visited_ok(visited: Seq<Seq<char>>, defs: Seq<TypeDefModel>) -> bool {
    &&& visited.no_duplicates()
    &&& forall|k: int| 0 <= k < visited.len() ==> lookup_type_def(defs, #[trigger] visited[k]) is Some
}

/// A visit of a type definition in the depth-first search that orders the
/// constructors: a definition not visited yet first has the definitions of the
/// types it uses visited, then adds its constructors. `fuel` bounds the depth.
pub open spec fn sort_visit(
    defs: Seq<TypeDefModel>,
    d: TypeDefModel,
    st: (Seq<Seq<char>>, Seq<(Seq<char>, Option<MachineTypeModel>)>),
    fuel: nat,
) -> (Seq<Seq<char>>, Seq<(Seq<char>, Option<MachineTypeModel>)>)
    decreases fuel, 0nat, 0nat,
{
    if fuel == 0 || st.0.contains(d.name) {
        st
    } else {
        let after = sort_visit_all(defs, directly_used(d.constructors), (st.0.push(d.name), st.1), (fuel - 1) as nat);
        (after.0, after.1 + d.constructors)
    }
}

/// The visits of the definitions of a sequence of used types, in order.
pub open spec fn sort_visit_all(
    defs: Seq<TypeDefModel>,
    used: Seq<Seq<char>>,
    st: (Seq<Seq<char>>, Seq<(Seq<char>, Option<MachineTypeModel>)>),
    fuel: nat,
) -> (Seq<Seq<char>>, Seq<(Seq<char>, Option<MachineTypeModel>)>)
    decreases fuel, 1nat, used.len(),
{
    if used.len() == 0 {
        st
    } else {
        let next = match lookup_type_def(defs, before_c(used[0])) {
            Some(j) => sort_visit(defs, defs[j], st, fuel),
            None => st,
        };
        sort_visit_all(defs, used.drop_first(), next, fuel)
    }
}

/// The search after the first `k` definitions have been visited in order.
pub open spec fn sort_prefix(defs: Seq<TypeDefModel>, k: nat) -> (Seq<Seq<char>>, Seq<(Seq<char>, Option<MachineTypeModel>)>)
    decreases k,
{
    if k == 0 || k > defs.len() {
        (Seq::empty(), Seq::empty())
    } else {
        sort_visit(defs, defs[k - 1], sort_prefix(defs, (k - 1) as nat), defs.len() + 1)
    }
}

/// The constructors of all definitions, each definition after those it uses
/// (where they do not use each other in a cycle).
pub open spec fn top_sorted(defs: Seq<TypeDefModel>) -> Seq<(Seq<char>, Option<MachineTypeModel>)> {
    sort_prefix(defs, defs.len()).1
}

proof fn lemma_lookup_type_def(defs: Seq<TypeDefModel>, name: Seq<char>)
    ensures
        lookup_type_def(defs, name) matches Some(j) ==> 0 <= j < defs.len() && defs[j].name == name,
        (exists|i: int| 0 <= i < defs.len() && defs[i].name == name) ==> lookup_type_def(defs, name) is Some,
    decreases defs.len(),
{
    if defs.len() > 0 {
        lemma_lookup_type_def(defs.drop_last(), name);
        if exists|i: int| 0 <= i < defs.len() && defs[i].name == name {
            let i = choose|i: int| 0 <= i < defs.len() && defs[i].name == name;
            if i < defs.len() - 1 {
                assert(defs.drop_last()[i].name == name);
            }
        }
    }
}

/// At most as many names can be visited as there are definitions.
proof fn lemma_visited_bound(visited: Seq<Seq<char>>, defs: Seq<TypeDefModel>)
    requires
        visited_ok(visited, defs),
    ensures
        visited.len() <= defs.len(),
{
    let names = defs.map_values(|d: TypeDefModel| d.name);
    visited.unique_seq_to_set();
    names.lemma_cardinality_of_set();
    assert forall|x: Seq<char>| visited.to_set().contains(x) implies names.to_set().contains(x) by {
        let k = choose|k: int| 0 <= k < visited.len() && visited[k] == x;
        assert(lookup_type_def(defs, visited[k]) is Some);
        lemma_lookup_type_def(defs, x);
        let j = lookup_type_def(defs, x)->0;
        assert(names[j] == x);
    }
    vstd::set_lib::lemma_len_subset(visited.to_set(), names.to_set());
}

/// The part of a name before its first `C`.
fn name_before_c(name: &String) -> (res: String)
    ensures
        res@ == before_c(name@),
{
    let s = name.as_str();
    let n = s.unicode_len();
    let mut k: usize = 0;
    let mut found = false;
    proof {
        assert(s@.skip(0) =~= s@);
        assert(s@.take(0) =~= Seq::<char>::empty());
        assert(s@ =~= s@.take(0) + s@.skip(0));
    }
    while !found && k < n
        invariant
            k <= n,
            n == s@.len(),
            s@ == name@,
            found ==> k < n && s@[k as int] == 'C',
            before_c(s@) == s@.take(k as int) + before_c(s@.skip(k as int)),
        decreases n - k, (if found { 0int } else { 1int }),
    {
        if s.get_char(k) == 'C' {
            found = true;
        } else {
            proof {
                let rest = s@.skip(k as int);
                assert(rest.drop_first() =~= s@.skip(k + 1));
                assert(s@.take(k + 1) =~= s@.take(k as int) + seq![rest[0]]);
            }
            k = k + 1;
        }
    }
    proof {
        if found {
            assert(s@.skip(k as int)[0] == 'C');
            assert(before_c(s@.skip(k as int)) =~= Seq::<char>::empty());
        } else {
            assert(s@.skip(k as int) =~= Seq::<char>::empty());
        }
        assert(before_c(s@) =~= s@.take(k as int));
    }
    let prefix = s.substring_char(0, k);
    prefix.to_owned()
}

/// The index of the last type definition with a name.
fn find_type_def(defs: &Vec<TypeDef>, name: &String) -> (res: Option<usize>)
    ensures
        match res {
            Some(j) => lookup_type_def(type_defs_view(defs@), name@) == Some(j as int),
            None => lookup_type_def(type_defs_view(defs@), name@) is None,
        },
{
    let ghost dv = type_defs_view(defs@);
    let mut k: usize = defs.len();
    proof {
        assert(dv.take(k as int) =~= dv);
    }
    while k > 0
        invariant
            k <= defs.len(),
            dv == type_defs_view(defs@),
            lookup_type_def(dv, name@) == lookup_type_def(dv.take(k as int), name@),
        decreases k,
    {
        proof {
            assert(dv.take(k as int).drop_last() =~= dv.take(k - 1));
        }
        if defs[k - 1].name == *name {
            return Some(k - 1);
        }
        k = k - 1;
    }
    None
}

/// Whether a name is among the visited ones.
fn contains_name(visited: &Vec<Name>, name: &Name) -> (res: bool)
    ensures
        res == names_view(visited@).contains(name@),
{
    let mut i: usize = 0;
    while i < visited.len()
        invariant
            i <= visited.len(),
            forall|j: int| 0 <= j < i ==> visited@[j]@ != name@,
        decreases visited.len() - i,
    {
        if visited[i] == *name {
            proof {
                assert(names_view(visited@)[i as int] == name@);
            }
            return true;
        }
        i = i + 1;
    }
    false
}

/// Copies of the constructors of a type definition.
fn clone_constructors(cs: &Vec<(Name, Option<MachineType>)>) -> (res: Vec<(Name, Option<MachineType>)>)
    ensures
        constructors_view(res@) == constructors_view(cs@),
{
    let mut out: Vec<(Name, Option<MachineType>)> = Vec::new();
    let mut i: usize = 0;
    while i < cs.len()
        invariant
            i <= cs.len(),
            constructors_view(out@) == constructors_view(cs@.take(i as int)),
        decreases cs.len() - i,
    {
        let t = match &cs[i].1 {
            None => None,
            Some(t) => Some(t.clone()),
        };
        let ghost before = out@;
        out.push((cs[i].0.clone(), t));
        proof {
            assert(constructors_view(out@) =~= constructors_view(before).push(constructor_view(cs@[i as int])));
            assert(constructors_view(out@) =~= constructors_view(cs@.take(i + 1)));
        }
        i = i + 1;
    }
    proof {
        assert(cs@.take(cs.len() as int) =~= cs@);
    }
    out
}

impl Emitter {
    /// Visits a type definition in the depth-first search that orders constructors.
    fn top_sort_internal(
        &self,
        defs: &Vec<TypeDef>,
        idx: usize,
        visited: &mut Vec<Name>,
        result: &mut Vec<(Name, Option<MachineType>)>,
        Ghost(fuel): Ghost<nat>,
    )
        requires
            idx < defs.len(),
            visited_ok(names_view(old(visited)@), type_defs_view(defs@)),
            fuel + old(visited)@.len() >= defs.len() + 1,
        ensures
            visited_ok(names_view(final(visited)@), type_defs_view(defs@)),
            final(visited)@.len() >= old(visited)@.len(),
            (names_view(final(visited)@), constructors_view(final(result)@)) == sort_visit(
                type_defs_view(defs@),
                type_defs_view(defs@)[idx as int],
                (names_view(old(visited)@), constructors_view(old(result)@)),
                fuel,
            ),
        decreases fuel,
    {
        let ghost dv = type_defs_view(defs@);
        let ghost st0 = (names_view(visited@), constructors_view(result@));
        proof {
            lemma_visited_bound(names_view(visited@), dv);
        }
        let def = &defs[idx];
        if contains_name(visited, &def.name) {
            return;
        }
        let ghost v0 = visited@;
        visited.push(def.name.clone());
        proof {
            assert(names_view(visited@) =~= names_view(v0).push(def.name@));
            lemma_lookup_type_def(dv, def.name@);
            assert(dv[idx as int].name == def.name@);
            assert(visited_ok(names_view(visited@), dv));
        }
        let used = def.directly_used_types();
        let ghost used_v = names_view(used@);
        let ghost f1 = (fuel - 1) as nat;
        let ghost target = sort_visit_all(dv, used_v, (names_view(visited@), constructors_view(result@)), f1);
        let mut k: usize = 0;
        proof {
            assert(used_v.skip(0) =~= used_v);
        }
        while k < used.len()
            invariant
                k <= used.len(),
                dv == type_defs_view(defs@),
                used_v == names_view(used@),
                visited_ok(names_view(visited@), dv),
                visited@.len() >= old(visited)@.len() + 1,
                fuel + old(visited)@.len() >= defs.len() + 1,
                fuel >= 1,
                f1 == fuel - 1,
                target == sort_visit_all(dv, used_v.skip(k as int), (names_view(visited@), constructors_view(result@)), f1),
            decreases used.len() - k,
        {
            proof {
                assert(used_v.skip(k as int).drop_first() =~= used_v.skip(k + 1));
                assert(used_v.skip(k as int)[0] == used@[k as int]@);
            }
            let base = name_before_c(&used[k]);
            match find_type_def(defs, &base) {
                Some(j) => {
                    proof {
                        lemma_lookup_type_def(dv, base@);
                    }
                    self.top_sort_internal(defs, j, visited, result, Ghost(f1));
                },
                None => {},
            }
            k = k + 1;
        }
        proof {
            assert(used_v.skip(used.len() as int) =~= Seq::<Seq<char>>::empty());
        }
        let ghost r0 = result@;
        let mut ctors = clone_constructors(&def.constructors);
        result.append(&mut ctors);
        proof {
            assert(constructors_view(result@) =~= constructors_view(r0) + constructors_view(def.constructors@));
            assert(dv[idx as int] == def@);
        }
    }

    /// The constructors of all type definitions, each definition after those it uses.
    fn top_sort(&self, defs: &Vec<TypeDef>) -> (res: Vec<(Name, Option<MachineType>)>)
        requires
            uses_resolve(type_defs_view(defs@)),
        ensures
            constructors_view(res@) == top_sorted(type_defs_view(defs@)),
    {
        let ghost dv = type_defs_view(defs@);
        let mut visited: Vec<Name> = Vec::new();
        let mut result: Vec<(Name, Option<MachineType>)> = Vec::new();
        let mut i: usize = 0;
        proof {
            assert(names_view(visited@) =~= Seq::<Seq<char>>::empty());
            assert(constructors_view(result@) =~= Seq::<(Seq<char>, Option<MachineTypeModel>)>::empty());
        }
        while i < defs.len()
            invariant
                i <= defs.len(),
                dv == type_defs_view(defs@),
                visited_ok(names_view(visited@), dv),
                (names_view(visited@), constructors_view(result@)) == sort_prefix(dv, i as nat),
            decreases defs.len() - i,
        {
            self.top_sort_internal(defs, i, &mut visited, &mut result, Ghost((defs.len() + 1) as nat));
            i = i + 1;
        }
        result
    }
}

/// The forward declarations of the structs of constructors, in order.
pub open spec fn forward_codes(cs: Seq<(Seq<char>, Option<MachineTypeModel>)>) -> Seq<Seq<char>>
    decreases cs.len(),
{
    if cs.len() == 0 {
        Seq::empty()
    } else {
        forward_codes(cs.drop_last()).push("struct "@ + cs.last().0 + ";"@)
    }
}

/// The forward declarations of the constructors of all definitions, in order.
pub open spec fn all_forward_codes(defs: Seq<TypeDefModel>) -> Seq<Seq<char>>
    decreases defs.len(),
{
    if defs.len() == 0 {
        Seq::empty()
    } else {
        all_forward_codes(defs.drop_last()) + forward_codes(defs.last().constructors)
    }
}

/// The names of constructors, in order.
pub open spec fn constructor_names(cs: Seq<(Seq<char>, Option<MachineTypeModel>)>) -> Seq<Seq<char>>
    decreases cs.len(),
{
    if cs.len() == 0 {
        Seq::empty()
    } else {
        constructor_names(cs.drop_last()).push(cs.last().0)
    }
}

/// The aliases that name the union of the constructors of each definition.
pub open spec fn typedef_codes(defs: Seq<TypeDefModel>) -> Seq<Seq<char>>
    decreases defs.len(),
{
    if defs.len() == 0 {
        Seq::empty()
    } else {
        let d = defs.last();
        typedef_codes(defs.drop_last()).push(
            "typedef "@ + type_code(MachineTypeModel::Union(constructor_names(d.constructors))) + " "@ + d.name + ";"@,
        )
    }
}

/// The struct of a constructor, which holds its data lazily, if it has any.
pub open spec fn constructor_definition_code(c: (Seq<char>, Option<MachineTypeModel>)) -> Seq<char> {
    let fields = match c.1 {
        Some(t) => "using type = "@ + type_code(t) + "; "@ + lazy_type_code(MachineTypeModel::Named("type"@)) + " value;"@,
        None => "Empty value;"@,
    };
    "struct "@ + c.0 + " { "@ + fields + " };"@
}

pub open spec fn constructor_definition_codes(cs: Seq<(Seq<char>, Option<MachineTypeModel>)>) -> Seq<Seq<char>>
    decreases cs.len(),
{
    if cs.len() == 0 {
        Seq::empty()
    } else {
        constructor_definition_codes(cs.drop_last()).push(constructor_definition_code(cs.last()))
    }
}

/// The C++ code of type definitions: forward declarations of the constructors,
/// the aliases of the unions, then the constructors in dependency order.
pub open spec fn type_defs_code(defs: Seq<TypeDefModel>) -> Seq<char> {
    join(all_forward_codes(defs), "\n"@) + " "@ + join(typedef_codes(defs), "\n"@) + " "@
        + join(constructor_definition_codes(top_sorted(defs)), "\n"@)
}

pub open spec fn fn_def_codes(fds: Seq<FnDef>) -> Seq<Seq<char>>
    decreases fds.len(),
{
    if fds.len() == 0 {
        Seq::empty()
    } else {
        fn_def_codes(fds.drop_last()).push(fn_def_code(fds.last()))
    }
}

/// The C++ code of a program: the header, its type definitions, then its functions.
pub open spec fn program_code(p: Program) -> Seq<char> {
    "#include \"main/include.hpp\"\n\n"@ + type_defs_code(type_defs_view(p.type_defs@)) + " "@
        + join(fn_def_codes(p.fn_defs@), "\n"@)
}

/// Whether a program can be emitted: each of its functions can, and every type
/// that a definition uses leads to a type definition.
pub open spec fn program_emittable(p: Program) -> bool {
    &&& forall|i: int| 0 <= i < p.fn_defs@.len() ==> fn_def_emittable(#[trigger] p.fn_defs@[i])
    &&& uses_resolve(type_defs_view(p.type_defs@))
}

impl Emitter {
    /// The C++ code of type definitions, each of whose used types names a
    /// type definition among them.
    pub fn emit_type_defs(&self, type_defs: &Vec<TypeDef>) -> (res: String)
        requires
            uses_resolve(type_defs_view(type_defs@)),
        ensures
            res@ == type_defs_code(type_defs_view(type_defs@)),
    {
        let ghost dv = type_defs_view(type_defs@);
        let mut forward: Vec<String> = Vec::new();
        let mut aliases: Vec<String> = Vec::new();
        let mut i: usize = 0;
        while i < type_defs.len()
            invariant
                i <= type_defs.len(),
                dv == type_defs_view(type_defs@),
                strings_view(forward@) == all_forward_codes(dv.take(i as int)),
                strings_view(aliases@) == typedef_codes(dv.take(i as int)),
            decreases type_defs.len() - i,
        {
            let def = &type_defs[i];
            let ghost cs = def@.constructors;
            let ghost f0 = strings_view(forward@);
            let mut names: Vec<String> = Vec::new();
            let mut k: usize = 0;
            while k < def.constructors.len()
                invariant
                    k <= def.constructors.len(),
                    cs == constructors_view(def.constructors@),
                    strings_view(forward@) == f0 + forward_codes(cs.take(k as int)),
                    strings_view(names@) == constructor_names(cs.take(k as int)),
                decreases def.constructors.len() - k,
            {
                proof {
                    assert(cs.take(k + 1).drop_last() =~= cs.take(k as int));
                }
                let mut code = String::new();
                code.append("struct ");
                code.append(def.constructors[k].0.as_str());
                code.append(";");
                let ghost fb = forward@;
                forward.push(code);
                let ghost nb = names@;
                names.push(def.constructors[k].0.clone());
                proof {
                    assert(strings_view(forward@) =~= strings_view(fb).push(code@));
                    assert(strings_view(forward@) =~= f0 + forward_codes(cs.take(k + 1)));
                    assert(strings_view(names@) =~= strings_view(nb).push(def.constructors@[k as int].0@));
                    assert(strings_view(names@) =~= constructor_names(cs.take(k + 1)));
                }
                k = k + 1;
            }
            proof {
                assert(cs.take(def.constructors.len() as int) =~= cs);
                assert(dv.take(i + 1).drop_last() =~= dv.take(i as int));
                assert(dv[i as int] == def@);
            }
            let mut alias = String::new();
            alias.append("typedef ");
            alias.append("VariantT<");
            append_joined(&mut alias, &names, ",");
            alias.append(">");
            alias.append(" ");
            alias.append(def.name.as_str());
            alias.append(";");
            proof {
                assert(alias@ =~= "typedef "@ + type_code(MachineTypeModel::Union(constructor_names(cs))) + " "@ + def.name@ + ";"@);
            }
            let ghost ab = aliases@;
            aliases.push(alias);
            proof {
                assert(strings_view(aliases@) =~= strings_view(ab).push(alias@));
                assert(strings_view(forward@) =~= all_forward_codes(dv.take(i + 1)));
                assert(strings_view(aliases@) =~= typedef_codes(dv.take(i + 1)));
            }
            i = i + 1;
        }
        proof {
            assert(dv.take(type_defs.len() as int) =~= dv);
        }
        let ctors = self.top_sort(type_defs);
        let ghost sorted = constructors_view(ctors@);
        let mut definitions: Vec<String> = Vec::new();
        let mut j: usize = 0;
        while j < ctors.len()
            invariant
                j <= ctors.len(),
                sorted == constructors_view(ctors@),
                strings_view(definitions@) == constructor_definition_codes(sorted.take(j as int)),
            decreases ctors.len() - j,
        {
            proof {
                assert(sorted.take(j + 1).drop_last() =~= sorted.take(j as int));
            }
            let mut code = String::new();
            code.append("struct ");
            code.append(ctors[j].0.as_str());
            code.append(" { ");
            match &ctors[j].1 {
                Some(t) => {
                    code.append("using type = ");
                    let tc = self.emit_type(t);
                    code.append(tc.as_str());
                    code.append("; ");
                    code.append("LazyT<");
                    code.append("type");
                    code.append(">");
                    code.append(" value;");
                },
                None => code.append("Empty value;"),
            }
            code.append(" };");
            proof {
                assert(code@ =~= constructor_definition_code(sorted[j as int]));
            }
            let ghost db = definitions@;
            definitions.push(code);
            proof {
                assert(strings_view(definitions@) =~= strings_view(db).push(code@));
                assert(strings_view(definitions@) =~= constructor_definition_codes(sorted.take(j + 1)));
            }
            j = j + 1;
        }
        proof {
            assert(sorted.take(ctors.len() as int) =~= sorted);
        }
        let mut out = String::new();
        append_joined(&mut out, &forward, "\n");
        out.append(" ");
        append_joined(&mut out, &aliases, "\n");
        out.append(" ");
        append_joined(&mut out, &definitions, "\n");
        proof {
            assert(out@ =~= type_defs_code(dv));
        }
        out
    }

    /// The C++ code of function definitions, one after another.
    fn emit_fn_defs(&self, fn_defs: &Vec<FnDef>) -> (res: String)
        requires
            forall|i: int| 0 <= i < fn_defs@.len() ==> fn_def_emittable(#[trigger] fn_defs@[i]),
        ensures
            res@ == join(fn_def_codes(fn_defs@), "\n"@),
    {
        let mut parts: Vec<String> = Vec::new();
        let mut i: usize = 0;
        while i < fn_defs.len()
            invariant
                i <= fn_defs.len(),
                forall|i: int| 0 <= i < fn_defs@.len() ==> fn_def_emittable(#[trigger] fn_defs@[i]),
                strings_view(parts@) == fn_def_codes(fn_defs@.take(i as int)),
            decreases fn_defs.len() - i,
        {
            proof {
                assert(fn_defs@.take(i + 1).drop_last() =~= fn_defs@.take(i as int));
            }
            let code = self.emit_fn_def(&fn_defs[i]);
            let ghost pb = parts@;
            parts.push(code);
            proof {
                assert(strings_view(parts@) =~= strings_view(pb).push(code@));
                assert(strings_view(parts@) =~= fn_def_codes(fn_defs@.take(i + 1)));
            }
            i = i + 1;
        }
        proof {
            assert(fn_defs@.take(fn_defs.len() as int) =~= fn_defs@);
        }
        let mut out = String::new();
        append_joined(&mut out, &parts, "\n");
        out
    }

    /// The C++ code of a program.
    fn emit_program(&self, program: &Program) -> (res: String)
        requires
            program_emittable(*program),
        ensures
            res@ == program_code(*program),
    {
        let type_def_code = self.emit_type_defs(&program.type_defs);
        let fn_def_code = self.emit_fn_defs(&program.fn_defs);
        let mut out = String::new();
        out.append("#include \"main/include.hpp\"\n\n");
        out.append(type_def_code.as_str());
        out.append(" ");
        out.append(fn_def_code.as_str());
        proof {
            assert(out@ =~= program_code(*program));
        }
        out
    }

    /// The C++ code of a program.
    pub fn emit(program: Program) -> (res: String)
        requires
            program_emittable(program),
        ensures
            res@ == program_code(program),
    {
        let emitter = Emitter {};
        emitter.emit_program(&program)
    }
}

} // verus!
