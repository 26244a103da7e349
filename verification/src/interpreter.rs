//! The state of a running program and the steps that change it: scopes, declarations,
//! assignments, arrays and calls.
use vstd::prelude::*;
use crate::ast::Node;
use crate::tokens::TokenKind;
use vstd::string::StringExecFns;
use vstd::hash_map::StringHashMap;
use crate::context::{Context, ContextView, lookup, declared, overwritten, pushed, popped, context_wf, lemma_find_after_declare, lemma_find_after_overwrite};
use crate::typechecker::{TypeChecker, Type, Builtin, Validator, Attr, admits, builtin_name, builtin_types, builtin_name_string, typename_after};
use crate::types::{Value, SpecValue, Instance, SpecInstance, Function, SpecFunction, Parameter, RuntimeError, values_view, lemma_values_view_index, lemma_values_view_len, params_view};
use crate::ast::SpecNode;
use crate::standard_functions::{StandardFunction, builtin_named, get_builtin_function, lemma_builtin_named};

verus! {

broadcast use vstd::map_lib::lemma_submap_of_trans;

/// A running program: its variables, the arrays and functions its values refer to, and the
/// types it can name.
pub struct Interpreter {
    pub context: Context,
    pub arrays: Vec<Vec<Instance>>,
    pub functions: Vec<Function>,
    pub type_checker: TypeChecker,
    /// The fields each struct type declares.
    pub struct_defs: StringHashMap<Vec<Parameter>>,
    /// The fields of each struct value, by name.
    pub struct_values: Vec<Vec<(String, Instance)>>,
}

/// The mathematical value of a running program.
pub struct InterpreterView {
    pub ctx: ContextView,
    pub arrays: Seq<Seq<SpecInstance>>,
    pub functions: Seq<SpecFunction>,
    pub types: Map<Seq<char>, Type>,
    pub struct_defs: Map<Seq<char>, Seq<(Seq<char>, Seq<char>)>>,
    pub struct_values: Seq<Seq<(Seq<char>, SpecInstance)>>,
}

/// The views of the fields of a struct value.
pub open spec fn fields_view(fs: Seq<(String, Instance)>) -> Seq<(Seq<char>, SpecInstance)> {
    fs.map_values(|f: (String, Instance)| (f.0@, f.1@))
}

/// The views of the elements of an array.
pub open spec fn elements_view(a: Seq<Instance>) -> Seq<SpecInstance> {
    a.map_values(|i: Instance| i@)
}

impl View for Interpreter {
    type V = InterpreterView;

    open spec fn view(&self) -> InterpreterView {
        InterpreterView {
            ctx: self.context@,
            arrays: self.arrays@.map_values(|a: Vec<Instance>| elements_view(a@)),
            functions: self.functions@.map_values(|f: Function| f@),
            types: self.type_checker@,
            struct_defs: self.struct_defs@.map_values(|ps: Vec<Parameter>| params_view(ps@)),
            struct_values: self.struct_values@.map_values(|fs: Vec<(String, Instance)>| fields_view(fs@)),
        }
    }
}

/// The value `v` stands for: the value of the variable it refers to, or itself.
pub open spec fn deref_value(v: SpecValue, slots: Seq<SpecInstance>) -> Result<SpecValue, RuntimeError> {
    match v {
        SpecValue::Reference(s) => if s < slots.len() {
            Ok(slots[s as int].value)
        } else {
            Err(RuntimeError::DanglingReference)
        },
        _ => Ok(v),
    }
}

/// The program state after declaring `id` as a variable of type `tname` holding `value`.
/// A value other than none must be admitted by the type, and no variable in scope may
/// already have the name.
pub open spec fn declare_outcome(
    st: InterpreterView,
    id: Seq<char>,
    tname: Seq<char>,
    value: SpecValue,
    mutable: bool,
) -> Result<InterpreterView, RuntimeError> {
    if !st.types.contains_key(tname) {
        Err(RuntimeError::UnknownType)
    } else if !(value is Nothing) && !admits(st.types[tname].validator, value) {
        Err(RuntimeError::TypeMismatch)
    } else if lookup(st.ctx, id) is Some {
        Err(RuntimeError::Redefinition)
    } else if st.ctx.slots.len() >= usize::MAX {
        Err(RuntimeError::StoreFull)
    } else {
        Ok(
            InterpreterView {
                ctx: declared(st.ctx, id, SpecInstance { mutable, value, m_type: tname }),
                ..st
            },
        )
    }
}

/// The program state after assigning `value` to the variable that `target` refers to: the
/// target must be a reference to a variable that may be assigned, whose type admits the value.
pub open spec fn assign_outcome(st: InterpreterView, target: SpecValue, value: SpecValue) -> Result<
    InterpreterView,
    RuntimeError,
> {
    match target {
        SpecValue::Reference(s) => if s >= st.ctx.slots.len() {
            Err(RuntimeError::DanglingReference)
        } else if !st.ctx.slots[s as int].mutable {
            Err(RuntimeError::AssignmentToConstant)
        } else if !(st.types.contains_key(st.ctx.slots[s as int].m_type) && admits(
            st.types[st.ctx.slots[s as int].m_type].validator,
            value,
        )) {
            Err(RuntimeError::TypeMismatch)
        } else {
            Ok(InterpreterView { ctx: overwritten(st.ctx, s as int, value), ..st })
        },
        _ => Err(RuntimeError::ExpectedReference),
    }
}

/// The array that variable `id` holds, with whether it may be changed and its slot.
pub open spec fn array_of(st: InterpreterView, id: Seq<char>) -> Result<(bool, nat), RuntimeError> {
    match lookup(st.ctx, id) {
        None => Err(RuntimeError::UnknownVariable),
        Some(s) => match st.ctx.slots[s as int].value {
            SpecValue::Array(m, a) => if a < st.arrays.len() {
                Ok((m, a))
            } else {
                Err(RuntimeError::DanglingReference)
            },
            _ => Err(RuntimeError::ExpectedArray),
        },
    }
}

/// The element at `index` of the array that variable `id` holds.
pub open spec fn array_element(st: InterpreterView, id: Seq<char>, index: int) -> Result<SpecValue, RuntimeError> {
    match array_of(st, id) {
        Err(e) => Err(e),
        Ok((_, a)) => if index < st.arrays[a as int].len() {
            Ok(st.arrays[a as int][index].value)
        } else {
            Err(RuntimeError::IndexOutOfBounds)
        },
    }
}

/// The program state after giving the element at `index` of the array that variable `id`
/// holds the value `value`: the array must be changeable and the element's type must admit
/// the value.
pub open spec fn array_assign_outcome(st: InterpreterView, id: Seq<char>, index: int, value: SpecValue) -> Result<
    InterpreterView,
    RuntimeError,
> {
    match array_of(st, id) {
        Err(e) => Err(e),
        Ok((m, a)) => if !m {
            Err(RuntimeError::ImmutableArray)
        } else if index >= st.arrays[a as int].len() {
            Err(RuntimeError::IndexOutOfBounds)
        } else {
            let el = st.arrays[a as int][index];
            if !(st.types.contains_key(el.m_type) && admits(st.types[el.m_type].validator, value)) {
                Err(RuntimeError::TypeMismatch)
            } else {
                Ok(
                    InterpreterView {
                        arrays: st.arrays.update(
                            a as int,
                            st.arrays[a as int].update(index, SpecInstance { value, ..el }),
                        ),
                        ..st
                    },
                )
            }
        },
    }
}

impl Interpreter {
    /// A program about to start: one scope holding the constant `none`, and the builtin types.
    pub fn new() -> (r: Self)
        ensures
            r@.ctx.scopes == seq![Map::<Seq<char>, usize>::empty().insert(seq!['n', 'o', 'n', 'e'], 0usize)],
            r@.ctx.slots == seq![
                SpecInstance {
                    mutable: false,
                    value: SpecValue::Nothing,
                    m_type: builtin_name(Builtin::Nothing),
                },
            ],
            r@.arrays == Seq::<Seq<SpecInstance>>::empty(),
            r@.functions == Seq::<SpecFunction>::empty(),
            r@.types == builtin_types(),
            r@.struct_defs == Map::<Seq<char>, Seq<(Seq<char>, Seq<char>)>>::empty(),
            r@.struct_values == Seq::<Seq<(Seq<char>, SpecInstance)>>::empty(),
    {
        let type_checker = TypeChecker::new();
        let mut context = Context::new();
        let none = Instance::new(false, Value::Nothing(), builtin_name_string(Builtin::Nothing));
        proof {
            reveal_strlit("none");
        }
        context.insert_variable("none", none);
        let r = Interpreter {
            context,
            arrays: Vec::new(),
            functions: Vec::new(),
            type_checker,
            struct_defs: StringHashMap::new(),
            struct_values: Vec::new(),
        };
        proof {
            assert("none"@ =~= seq!['n', 'o', 'n', 'e']);
            assert(r@.ctx.scopes =~= seq![
                Map::<Seq<char>, usize>::empty().insert(seq!['n', 'o', 'n', 'e'], 0usize),
            ]);
            assert(r@.ctx.slots =~= seq![
                SpecInstance {
                    mutable: false,
                    value: SpecValue::Nothing,
                    m_type: builtin_name(Builtin::Nothing),
                },
            ]);
            assert(r@.arrays =~= Seq::<Seq<SpecInstance>>::empty());
            assert(r@.functions =~= Seq::<SpecFunction>::empty());
            assert(r@.struct_defs =~= Map::<Seq<char>, Seq<(Seq<char>, Seq<char>)>>::empty());
            assert(r@.struct_values =~= Seq::<Seq<(Seq<char>, SpecInstance)>>::empty());
        }
        r
    }

    /// Opens a new innermost scope.
    pub fn push_ctx(&mut self)
        ensures
            final(self)@ == (InterpreterView { ctx: pushed(old(self)@.ctx), ..old(self)@ }),
    {
        self.context.push_scope();
    }

    /// Closes the innermost scope; the outermost scope cannot be closed.
    pub fn pop_ctx(&mut self)
        requires
            old(self)@.ctx.scopes.len() > 1,
        ensures
            final(self)@ == (InterpreterView { ctx: popped(old(self)@.ctx), ..old(self)@ }),
    {
        self.context.pop_scope();
    }

    /// A reference to the variable that `id` resolves to.
    pub fn try_visit_identifier(&self, id: &str) -> (r: Result<Value, RuntimeError>)
        ensures
            match lookup(self@.ctx, id@) {
                Some(s) => r is Ok && r.unwrap()@ == SpecValue::Reference(s as nat),
                None => r == Err::<Value, RuntimeError>(RuntimeError::UnknownVariable),
            },
    {
        match self.context.find_variable(id) {
            Some(s) => Ok(Value::Reference(s)),
            None => Err(RuntimeError::UnknownVariable),
        }
    }

    /// A reference to the variable that `id` resolves to, which must exist.
    pub fn visit_identifier(&self, id: &str) -> (r: Value)
        requires
            lookup(self@.ctx, id@) is Some,
        ensures
            r@ == SpecValue::Reference(lookup(self@.ctx, id@)->Some_0 as nat),
    {
        self.try_visit_identifier(id).unwrap()
    }

    /// The value `v` stands for (see `deref_value`).
    pub fn try_eval_deref(&self, v: Value) -> (r: Result<Value, RuntimeError>)
        ensures
            match deref_value(v@, self@.ctx.slots) {
                Ok(x) => r is Ok && r.unwrap()@ == x,
                Err(e) => r == Err::<Value, RuntimeError>(e),
            },
    {
        match v {
            Value::Reference(s) => {
                if s < self.context.slot_count() {
                    Ok(self.context.instance(s).value.duplicate())
                } else {
                    Err(RuntimeError::DanglingReference)
                }
            },
            _ => Ok(v),
        }
    }

    /// The value `v` stands for, where it refers to a variable that exists.
    pub fn eval_deref(&self, v: Value) -> (r: Value)
        requires
            deref_value(v@, self@.ctx.slots) is Ok,
        ensures
            r@ == deref_value(v@, self@.ctx.slots)->Ok_0,
    {
        self.try_eval_deref(v).unwrap()
    }

    /// Gives the variable that `id` resolves to the value `value`.
    pub fn try_assign_var(&mut self, id: &str, value: &Value) -> (r: Result<(), RuntimeError>)
        ensures
            match lookup(old(self)@.ctx, id@) {
                Some(s) => r is Ok && final(self)@ == (InterpreterView {
                    ctx: overwritten(old(self)@.ctx, s as int, value@),
                    ..old(self)@
                }),
                None => r == Err::<(), RuntimeError>(RuntimeError::UnknownVariable) && final(self)@ == old(self)@,
            },
    {
        match self.context.seek_overwrite_in_parents(id, value) {
            Ok(()) => Ok(()),
            Err(()) => Err(RuntimeError::UnknownVariable),
        }
    }

    /// Gives the variable that `id` resolves to, which must exist, the value `value`.
    pub fn assign_var(&mut self, id: &str, value: &Value)
        requires
            lookup(old(self)@.ctx, id@) is Some,
        ensures
            final(self)@ == (InterpreterView {
                ctx: overwritten(old(self)@.ctx, lookup(old(self)@.ctx, id@)->Some_0 as int, value@),
                ..old(self)@
            }),
    {
        self.try_assign_var(id, value).unwrap()
    }

    /// Declares `target_id` as a variable of type `target_type` holding `value`, or none when
    /// there is no value (see `declare_outcome`); on an error nothing changes.
    pub fn try_visit_declaration(&mut self, target_id: &str, target_type: &str, value: Option<Value>, mutable: bool) -> (r:
        Result<(), RuntimeError>)
        ensures
            match declare_outcome(
                old(self)@,
                target_id@,
                target_type@,
                match value {
                    Some(v) => v@,
                    None => SpecValue::Nothing,
                },
                mutable,
            ) {
                Ok(st) => r is Ok && final(self)@ == st,
                Err(e) => r == Err::<(), RuntimeError>(e) && final(self)@ == old(self)@,
            },
    {
        let m_type = match self.type_checker.get(target_type) {
            Some(t) => t,
            None => return Err(RuntimeError::UnknownType),
        };
        let value = match value {
            Some(v) => v,
            None => Value::Nothing(),
        };
        let is_nothing = match value {
            Value::Nothing() => true,
            _ => false,
        };
        if !is_nothing && !m_type.validate(&value) {
            return Err(RuntimeError::TypeMismatch);
        }
        if self.context.find_variable(target_id).is_some() {
            return Err(RuntimeError::Redefinition);
        }
        if self.context.slot_count() == usize::MAX {
            return Err(RuntimeError::StoreFull);
        }
        let var = Instance::new(mutable, value, target_type.to_owned());
        self.context.insert_variable(target_id, var);
        Ok(())
    }

    /// Declares `target_id` as `try_visit_declaration` does, where the declaration is allowed.
    pub fn visit_declaration(&mut self, target_id: &str, target_type: &str, value: Option<Value>, mutable: bool)
        requires
            declare_outcome(
                old(self)@,
                target_id@,
                target_type@,
                match value {
                    Some(v) => v@,
                    None => SpecValue::Nothing,
                },
                mutable,
            ) is Ok,
        ensures
            final(self)@ == declare_outcome(
                old(self)@,
                target_id@,
                target_type@,
                match value {
                    Some(v) => v@,
                    None => SpecValue::Nothing,
                },
                mutable,
            )->Ok_0,
    {
        self.try_visit_declaration(target_id, target_type, value, mutable).unwrap()
    }

    /// Assigns `value` to the variable that `target` refers to (see `assign_outcome`); on an
    /// error nothing changes.
    pub fn try_visit_assignment(&mut self, target: &Value, value: &Value) -> (r: Result<(), RuntimeError>)
        ensures
            match assign_outcome(old(self)@, target@, value@) {
                Ok(st) => r is Ok && final(self)@ == st,
                Err(e) => r == Err::<(), RuntimeError>(e) && final(self)@ == old(self)@,
            },
    {
        let s = match target {
            Value::Reference(s) => *s,
            _ => return Err(RuntimeError::ExpectedReference),
        };
        if s >= self.context.slot_count() {
            return Err(RuntimeError::DanglingReference);
        }
        let var = self.context.instance(s);
        if !var.mutable {
            return Err(RuntimeError::AssignmentToConstant);
        }
        let admitted = match self.type_checker.get(var.m_type.as_str()) {
            Some(t) => t.validate(value),
            None => false,
        };
        if !admitted {
            return Err(RuntimeError::TypeMismatch);
        }
        self.context.set_slot_value(s, value);
        Ok(())
    }

    /// Assigns `value` to the variable that `target` refers to, where `assign_outcome` allows it.
    pub fn visit_assignment(&mut self, target: &Value, value: &Value)
        requires
            assign_outcome(old(self)@, target@, value@) is Ok,
        ensures
            final(self)@ == assign_outcome(old(self)@, target@, value@)->Ok_0,
    {
        self.try_visit_assignment(target, value).unwrap()
    }

    /// The mutability and slot of the array that variable `id` holds (see `array_of`).
    fn find_array(&self, id: &str) -> (r: Result<(bool, usize), RuntimeError>)
        ensures
            match array_of(self@, id@) {
                Ok((m, a)) => r is Ok && r.unwrap().0 == m && r.unwrap().1 == a,
                Err(e) => r == Err::<(bool, usize), RuntimeError>(e),
            },
    {
        let s = match self.context.find_variable(id) {
            Some(s) => s,
            None => return Err(RuntimeError::UnknownVariable),
        };
        match self.context.instance(s).value {
            Value::Array(m, a) => {
                if a < self.arrays.len() {
                    Ok((m, a))
                } else {
                    Err(RuntimeError::DanglingReference)
                }
            },
            _ => Err(RuntimeError::ExpectedArray),
        }
    }

    /// The element at `index` of the array that variable `id` holds.
    pub fn try_access_array(&self, id: &str, index: usize) -> (r: Result<Value, RuntimeError>)
        ensures
            match array_element(self@, id@, index as int) {
                Ok(v) => r is Ok && r.unwrap()@ == v,
                Err(e) => r == Err::<Value, RuntimeError>(e),
            },
    {
        let (_, a) = match self.find_array(id) {
            Ok(x) => x,
            Err(e) => return Err(e),
        };
        let elements = &self.arrays[a];
        assert(elements@.map_values(|i: Instance| i@) == self@.arrays[a as int]);
        if index >= elements.len() {
            return Err(RuntimeError::IndexOutOfBounds);
        }
        Ok(elements[index].value.duplicate())
    }

    /// The element at `index` of the array that variable `id` holds, where there is one.
    pub fn access_array(&self, id: &str, index: usize) -> (r: Value)
        requires
            array_element(self@, id@, index as int) is Ok,
        ensures
            r@ == array_element(self@, id@, index as int)->Ok_0,
    {
        self.try_access_array(id, index).unwrap()
    }

    /// Gives the element at `index` of the array that variable `id` holds the value `value`
    /// (see `array_assign_outcome`); on an error nothing changes.
    pub fn try_assign_to_array(&mut self, id: &str, index: usize, value: &Value) -> (r: Result<(), RuntimeError>)
        ensures
            match array_assign_outcome(old(self)@, id@, index as int, value@) {
                Ok(st) => r is Ok && final(self)@ == st,
                Err(e) => r == Err::<(), RuntimeError>(e) && final(self)@ == old(self)@,
            },
    {
        let ghost old_view = self@;
        let (m, a) = match self.find_array(id) {
            Ok(x) => x,
            Err(e) => return Err(e),
        };
        if !m {
            return Err(RuntimeError::ImmutableArray);
        }
        assert(self.arrays@[a as int]@.map_values(|i: Instance| i@) == self@.arrays[a as int]);
        if index >= self.arrays[a].len() {
            return Err(RuntimeError::IndexOutOfBounds);
        }
        let admitted = match self.type_checker.get(self.arrays[a][index].m_type.as_str()) {
            Some(t) => t.validate(value),
            None => false,
        };
        if !admitted {
            return Err(RuntimeError::TypeMismatch);
        }
        let mut elements = self.arrays.remove(a);
        let mut el = elements.remove(index);
        el.set_value(value);
        elements.insert(index, el);
        self.arrays.insert(a, elements);
        proof {
            let want = array_assign_outcome(old_view, id@, index as int, value@);
            assert(want is Ok);
            assert(self@.arrays[a as int] =~= want->Ok_0.arrays[a as int]);
            assert(self@.arrays =~= want->Ok_0.arrays);
        }
        Ok(())
    }

    /// Gives the element at `index` of the array that variable `id` holds the value `value`,
    /// where `array_assign_outcome` allows it.
    pub fn assign_to_array(&mut self, id: &str, index: usize, value: &Value)
        requires
            array_assign_outcome(old(self)@, id@, index as int, value@) is Ok,
        ensures
            final(self)@ == array_assign_outcome(old(self)@, id@, index as int, value@)->Ok_0,
    {
        self.try_assign_to_array(id, index, value).unwrap()
    }
}


/// A result of the language's operators, by its view.
pub open spec fn value_outcome(r: Result<Value, RuntimeError>) -> Result<SpecValue, RuntimeError> {
    match r {
        Ok(v) => Ok(v@),
        Err(e) => Err(e),
    }
}

/// The quotient of `x` by `d`, rounded toward zero.
pub open spec fn trunc_div(x: int, d: int) -> int {
    if x == 0 {
        0
    } else if x > 0 && d > 0 {
        x / d
    } else if x < 0 && d < 0 {
        (-x) / (-d)
    } else if x < 0 {
        -((-x) / d)
    } else {
        -(x / (-d))
    }
}

/// The exact result of the integer operation `a op b`.
pub open spec fn int_arith(op: TokenKind, a: int, b: int) -> Result<int, RuntimeError> {
    match op {
        TokenKind::Add => Ok(a + b),
        TokenKind::Subtract => Ok(a - b),
        TokenKind::Multiply => Ok(a * b),
        TokenKind::Divide => if b == 0 {
            Err(RuntimeError::DivisionByZero)
        } else {
            Ok(trunc_div(a, b))
        },
        _ => Err(RuntimeError::InvalidOperator),
    }
}

/// An exact integer result as a 32-bit integer value, or an overflow.
pub open spec fn int_value(r: Result<int, RuntimeError>) -> Result<SpecValue, RuntimeError> {
    match r {
        Ok(n) => if i32::MIN <= n <= i32::MAX {
            Ok(SpecValue::Int(n as i32))
        } else {
            Err(RuntimeError::IntegerOverflow)
        },
        Err(e) => Err(e),
    }
}

/// The comparison `a op b` of two integers.
pub open spec fn compare_ints(op: TokenKind, a: i32, b: i32) -> Result<SpecValue, RuntimeError> {
    match op {
        TokenKind::LeftAngle => Ok(SpecValue::Bool(a < b)),
        TokenKind::LessThanEquals => Ok(SpecValue::Bool(a <= b)),
        TokenKind::RightAngle => Ok(SpecValue::Bool(a > b)),
        TokenKind::GreaterThanEquals => Ok(SpecValue::Bool(a >= b)),
        TokenKind::Equals => Ok(SpecValue::Bool(a == b)),
        TokenKind::NotEquals => Ok(SpecValue::Bool(a != b)),
        _ => Err(RuntimeError::InvalidOperator),
    }
}

/// Whether `a` and `b` are two numbers of which at least one is a double: comparing or
/// combining them is floating-point arithmetic.
pub open spec fn is_float_pair(a: SpecValue, b: SpecValue) -> bool {
    ||| (a is Double && b is Double)
    ||| (a is Int && b is Double)
    ||| (a is Double && b is Int)
}

/// The relational expression `l op r` on two operand values.
pub open spec fn relational_outcome(op: TokenKind, l: SpecValue, r: SpecValue) -> Result<SpecValue, RuntimeError> {
    match (l, r) {
        (SpecValue::Bool(a), SpecValue::Bool(b)) => match op {
            TokenKind::Equals => Ok(SpecValue::Bool(a == b)),
            TokenKind::NotEquals => Ok(SpecValue::Bool(a != b)),
            _ => Err(RuntimeError::InvalidOperator),
        },
        (SpecValue::Int(a), SpecValue::Int(b)) => compare_ints(op, a, b),
        (SpecValue::String(a), SpecValue::String(b)) => match op {
            TokenKind::Equals => Ok(SpecValue::Bool(a == b)),
            TokenKind::NotEquals => Ok(SpecValue::Bool(a != b)),
            _ => Err(RuntimeError::InvalidOperator),
        },
        _ => Err(RuntimeError::InvalidOperator),
    }
}

/// The logical expression `l op r` on two operand values.
pub open spec fn logical_outcome(op: TokenKind, l: SpecValue, r: SpecValue) -> Result<SpecValue, RuntimeError> {
    match (l, r) {
        (SpecValue::Bool(a), SpecValue::Bool(b)) => match op {
            TokenKind::LogicalAnd => Ok(SpecValue::Bool(a && b)),
            TokenKind::LogicalOr => Ok(SpecValue::Bool(a || b)),
            _ => Err(RuntimeError::InvalidOperator),
        },
        _ => Err(RuntimeError::InvalidOperator),
    }
}

/// Whether `op` is one of the four arithmetic operators.
pub open spec fn is_arith_op(op: TokenKind) -> bool {
    op == TokenKind::Add || op == TokenKind::Subtract || op == TokenKind::Multiply || op == TokenKind::Divide
}

/// The binary operation `l op r` on two operand values: arithmetic on integers, `+` on
/// strings, and the member access `.`, which yields none.
pub open spec fn binary_outcome(op: TokenKind, l: SpecValue, r: SpecValue) -> Result<SpecValue, RuntimeError> {
    if op == TokenKind::Period {
        Ok(SpecValue::Nothing)
    } else if is_arith_op(op) {
        match (l, r) {
            (SpecValue::Int(a), SpecValue::Int(b)) => int_value(int_arith(op, a as int, b as int)),
            (SpecValue::String(a), SpecValue::String(b)) => if op == TokenKind::Add {
                Ok(SpecValue::String(a + b))
            } else {
                Err(RuntimeError::InvalidOperator)
            },
            _ => Err(RuntimeError::InvalidOperator),
        }
    } else {
        Err(RuntimeError::InvalidOperator)
    }
}

/// The product or quotient `l op r` of two integer operand values.
pub open spec fn term_outcome(op: TokenKind, l: SpecValue, r: SpecValue) -> Result<SpecValue, RuntimeError> {
    match (l, r) {
        (SpecValue::Int(a), SpecValue::Int(b)) => if op == TokenKind::Multiply || op == TokenKind::Divide {
            int_value(int_arith(op, a as int, b as int))
        } else {
            Err(RuntimeError::InvalidOperator)
        },
        _ => Err(RuntimeError::InvalidOperator),
    }
}

impl Interpreter {
    /// The integer operation `lhs op rhs` for `+`, `-`, `*` and `/`, which rounds toward zero;
    /// a result outside 32 bits is an overflow.
    pub fn bin_op_int(op: TokenKind, lhs: i32, rhs: i32) -> (r: Result<Value, RuntimeError>)
        ensures
            value_outcome(r) == int_value(int_arith(op, lhs as int, rhs as int)),
    {
        let result = match op {
            TokenKind::Add => lhs.checked_add(rhs),
            TokenKind::Subtract => lhs.checked_sub(rhs),
            TokenKind::Multiply => lhs.checked_mul(rhs),
            TokenKind::Divide => {
                if rhs == 0 {
                    return Err(RuntimeError::DivisionByZero);
                }
                lhs.checked_div(rhs)
            },
            _ => return Err(RuntimeError::InvalidOperator),
        };
        match result {
            Some(n) => Ok(Value::Int(n)),
            None => Err(RuntimeError::IntegerOverflow),
        }
    }

    /// The string operation `lhs op rhs`: only `+`, which joins them.
    pub fn bin_op_string(op: TokenKind, lhs: &String, rhs: &String) -> (r: Result<Value, RuntimeError>)
        ensures
            value_outcome(r) == if op == TokenKind::Add {
                Ok::<SpecValue, RuntimeError>(SpecValue::String(lhs@ + rhs@))
            } else {
                Err::<SpecValue, RuntimeError>(RuntimeError::InvalidOperator)
            },
    {
        if op == TokenKind::Add {
            let mut result = lhs.clone();
            result.append(rhs.as_str());
            Ok(Value::String(result))
        } else {
            Err(RuntimeError::InvalidOperator)
        }
    }

    /// The relational expression `lhs op rhs` on operand values that are not floating-point
    /// numbers (see `relational_outcome`).
    pub fn try_visit_relational_op(op: TokenKind, lhs: &Value, rhs: &Value) -> (r: Result<Value, RuntimeError>)
        requires
            !is_float_pair(lhs@, rhs@),
        ensures
            value_outcome(r) == relational_outcome(op, lhs@, rhs@),
    {
        match (lhs, rhs) {
            (Value::Bool(a), Value::Bool(b)) => match op {
                TokenKind::Equals => Ok(Value::Bool(*a == *b)),
                TokenKind::NotEquals => Ok(Value::Bool(*a != *b)),
                _ => Err(RuntimeError::InvalidOperator),
            },
            (Value::Int(a), Value::Int(b)) => match op {
                TokenKind::LeftAngle => Ok(Value::Bool(*a < *b)),
                TokenKind::LessThanEquals => Ok(Value::Bool(*a <= *b)),
                TokenKind::RightAngle => Ok(Value::Bool(*a > *b)),
                TokenKind::GreaterThanEquals => Ok(Value::Bool(*a >= *b)),
                TokenKind::Equals => Ok(Value::Bool(*a == *b)),
                TokenKind::NotEquals => Ok(Value::Bool(*a != *b)),
                _ => Err(RuntimeError::InvalidOperator),
            },
            (Value::String(a), Value::String(b)) => match op {
                TokenKind::Equals => Ok(Value::Bool(a.eq(b))),
                TokenKind::NotEquals => Ok(Value::Bool(!a.eq(b))),
                _ => Err(RuntimeError::InvalidOperator),
            },
            _ => Err(RuntimeError::InvalidOperator),
        }
    }

    /// The relational expression `lhs op rhs`, on operands of one kind that the operator
    /// compares.
    pub fn visit_relational_op(op: TokenKind, lhs: &Value, rhs: &Value) -> (r: Value)
        requires
            !is_float_pair(lhs@, rhs@),
            relational_outcome(op, lhs@, rhs@) is Ok,
        ensures
            r@ == relational_outcome(op, lhs@, rhs@)->Ok_0,
    {
        Self::try_visit_relational_op(op, lhs, rhs).unwrap()
    }

    /// The logical expression `lhs op rhs` on operand values (see `logical_outcome`).
    pub fn try_visit_logical_op(op: TokenKind, lhs: &Value, rhs: &Value) -> (r: Result<Value, RuntimeError>)
        ensures
            value_outcome(r) == logical_outcome(op, lhs@, rhs@),
    {
        match (lhs, rhs) {
            (Value::Bool(a), Value::Bool(b)) => match op {
                TokenKind::LogicalAnd => Ok(Value::Bool(*a && *b)),
                TokenKind::LogicalOr => Ok(Value::Bool(*a || *b)),
                _ => Err(RuntimeError::InvalidOperator),
            },
            _ => Err(RuntimeError::InvalidOperator),
        }
    }

    /// The logical expression `lhs op rhs` on two booleans and a logical operator.
    pub fn visit_logical_op(op: TokenKind, lhs: &Value, rhs: &Value) -> (r: Value)
        requires
            logical_outcome(op, lhs@, rhs@) is Ok,
        ensures
            r@ == logical_outcome(op, lhs@, rhs@)->Ok_0,
    {
        Self::try_visit_logical_op(op, lhs, rhs).unwrap()
    }

    /// The binary operation `lhs op rhs` on operand values that are not two doubles (see
    /// `binary_outcome`). A call, the operator `(`, names its function rather than combining two
    /// values: it goes to `prepare_call`.
    pub fn try_visit_binary_op(op: TokenKind, lhs: &Value, rhs: &Value) -> (r: Result<Value, RuntimeError>)
        requires
            !(is_arith_op(op) && lhs@ is Double && rhs@ is Double),
            op != TokenKind::OpenParenthesis,
        ensures
            value_outcome(r) == binary_outcome(op, lhs@, rhs@),
    {
        if op == TokenKind::Period {
            return Ok(Value::Nothing());
        }
        if !(op == TokenKind::Add || op == TokenKind::Subtract || op == TokenKind::Multiply || op
            == TokenKind::Divide) {
            return Err(RuntimeError::InvalidOperator);
        }
        match (lhs, rhs) {
            (Value::Int(a), Value::Int(b)) => Self::bin_op_int(op, *a, *b),
            (Value::String(a), Value::String(b)) => Self::bin_op_string(op, a, b),
            _ => Err(RuntimeError::InvalidOperator),
        }
    }

    /// The binary operation `lhs op rhs` where `binary_outcome` gives a value.
    pub fn visit_binary_op(op: TokenKind, lhs: &Value, rhs: &Value) -> (r: Value)
        requires
            !(is_arith_op(op) && lhs@ is Double && rhs@ is Double),
            op != TokenKind::OpenParenthesis,
            binary_outcome(op, lhs@, rhs@) is Ok,
        ensures
            r@ == binary_outcome(op, lhs@, rhs@)->Ok_0,
    {
        Self::try_visit_binary_op(op, lhs, rhs).unwrap()
    }

    /// The product or quotient `lhs op rhs` of operand values that are not two doubles (see
    /// `term_outcome`).
    pub fn try_visit_term_op(op: TokenKind, lhs: &Value, rhs: &Value) -> (r: Result<Value, RuntimeError>)
        requires
            !(lhs@ is Double && rhs@ is Double),
        ensures
            value_outcome(r) == term_outcome(op, lhs@, rhs@),
    {
        match (lhs, rhs) {
            (Value::Int(a), Value::Int(b)) => {
                if op == TokenKind::Multiply || op == TokenKind::Divide {
                    Self::bin_op_int(op, *a, *b)
                } else {
                    Err(RuntimeError::InvalidOperator)
                }
            },
            _ => Err(RuntimeError::InvalidOperator),
        }
    }

    /// The product or quotient `lhs op rhs` where `term_outcome` gives a value.
    pub fn visit_term_op(op: TokenKind, lhs: &Value, rhs: &Value) -> (r: Value)
        requires
            !(lhs@ is Double && rhs@ is Double),
            term_outcome(op, lhs@, rhs@) is Ok,
        ensures
            r@ == term_outcome(op, lhs@, rhs@)->Ok_0,
    {
        Self::try_visit_term_op(op, lhs, rhs).unwrap()
    }

    /// The unary not of an operand value: the negation of a boolean.
    pub fn try_visit_not_op(operand: &Value) -> (r: Result<Value, RuntimeError>)
        ensures
            value_outcome(r) == match operand@ {
                SpecValue::Bool(b) => Ok::<SpecValue, RuntimeError>(SpecValue::Bool(!b)),
                _ => Err::<SpecValue, RuntimeError>(RuntimeError::ExpectedBoolean),
            },
    {
        match operand {
            Value::Bool(b) => Ok(Value::Bool(!*b)),
            _ => Err(RuntimeError::ExpectedBoolean),
        }
    }

    /// The negation of a boolean.
    pub fn visit_not_op(operand: &Value) -> (r: Value)
        requires
            operand@ is Bool,
        ensures
            r@ == SpecValue::Bool(!operand@->Bool_0),
    {
        Self::try_visit_not_op(operand).unwrap()
    }

    /// The unary minus of an operand value that is not a double: the negation of an integer.
    pub fn try_visit_neg_op(operand: &Value) -> (r: Result<Value, RuntimeError>)
        requires
            !(operand@ is Double),
        ensures
            value_outcome(r) == match operand@ {
                SpecValue::Int(i) => int_value(Ok(-(i as int))),
                _ => Err::<SpecValue, RuntimeError>(RuntimeError::ExpectedNumber),
            },
    {
        match operand {
            Value::Int(i) => {
                if *i == i32::MIN {
                    Err(RuntimeError::IntegerOverflow)
                } else {
                    Ok(Value::Int(-*i))
                }
            },
            _ => Err(RuntimeError::ExpectedNumber),
        }
    }

    /// The negation of an integer that has one in 32 bits.
    pub fn visit_neg_op(operand: &Value) -> (r: Value)
        requires
            operand@ matches SpecValue::Int(i) && i != i32::MIN,
        ensures
            r@ == SpecValue::Int(-operand@->Int_0 as int as i32),
    {
        Self::try_visit_neg_op(operand).unwrap()
    }
}


/// The elements of an array literal with values `vals`, each typed by the registered type of
/// its value, and the registry after naming those types (see `typename_after`).
pub open spec fn typed_elements(
    vals: Seq<SpecValue>,
    slots: Seq<SpecInstance>,
    m: Map<Seq<char>, Type>,
    elements_mutable: bool,
) -> Result<(Seq<SpecInstance>, Map<Seq<char>, Type>), RuntimeError>
    decreases vals.len(),
{
    if vals.len() == 0 {
        Ok((Seq::empty(), m))
    } else {
        match typed_elements(vals.drop_last(), slots, m, elements_mutable) {
            Ok((insts, m1)) => match typename_after(vals.last(), slots, m1, 1) {
                Ok((n, m2)) => if m2.contains_key(n) {
                    Ok((insts.push(SpecInstance { mutable: elements_mutable, value: vals.last(), m_type: n }), m2))
                } else {
                    Err(RuntimeError::UnknownType)
                },
                Err(e) => Err(e),
            },
            Err(e) => Err(e),
        }
    }
}

/// Law: typing the values of an array literal keeps them in order: one element per value,
/// holding that value, changeable as asked.
pub proof fn lemma_typed_elements_keep_values(
    vals: Seq<SpecValue>,
    slots: Seq<SpecInstance>,
    m: Map<Seq<char>, Type>,
    elements_mutable: bool,
)
    ensures
        typed_elements(vals, slots, m, elements_mutable) matches Ok((insts, _)) ==> insts.len() == vals.len()
            && forall|j: int| 0 <= j < vals.len() ==> (#[trigger] insts[j]).value == vals[j] && insts[j].mutable == elements_mutable,
    decreases vals.len(),
{
    if vals.len() > 0 {
        lemma_typed_elements_keep_values(vals.drop_last(), slots, m, elements_mutable);
        if let Ok((insts, _)) = typed_elements(vals, slots, m, elements_mutable) {
            let p = typed_elements(vals.drop_last(), slots, m, elements_mutable)->Ok_0.0;
            assert forall|j: int| 0 <= j < vals.len() implies (#[trigger] insts[j]).value == vals[j] && insts[j].mutable == elements_mutable by {
                if j < vals.len() - 1 {
                    assert(insts[j] == p[j]);
                    assert(vals.drop_last()[j] == vals[j]);
                }
            }
        }
    }
}

/// Once typing a prefix of the elements fails, typing them all fails the same way.
proof fn lemma_typed_elements_error(
    vals: Seq<SpecValue>,
    k: int,
    slots: Seq<SpecInstance>,
    m: Map<Seq<char>, Type>,
    em: bool,
)
    requires
        0 <= k <= vals.len(),
        typed_elements(vals.take(k), slots, m, em) is Err,
    ensures
        typed_elements(vals, slots, m, em) == typed_elements(vals.take(k), slots, m, em),
    decreases vals.len(),
{
    if k < vals.len() {
        assert(vals.drop_last().take(k) =~= vals.take(k));
        lemma_typed_elements_error(vals.drop_last(), k, slots, m, em);
    } else {
        assert(vals.take(k) =~= vals);
    }
}

/// The program state after evaluating an array literal of capacity `capacity` whose elements
/// have values `vals`: a new array, changeable when `mutable`, whose elements are changeable
/// when `elements_mutable`. Gives the new array's value too.
pub open spec fn array_outcome(
    st: InterpreterView,
    capacity: int,
    vals: Seq<SpecValue>,
    mutable: bool,
    elements_mutable: bool,
) -> Result<(SpecValue, InterpreterView), RuntimeError> {
    if capacity < vals.len() {
        Err(RuntimeError::ArrayTooLong)
    } else {
        match typed_elements(vals, st.ctx.slots, st.types, elements_mutable) {
            Ok((insts, m)) => Ok((
                SpecValue::Array(mutable, st.arrays.len()),
                InterpreterView { arrays: st.arrays.push(insts), types: m, ..st },
            )),
            Err(e) => Err(e),
        }
    }
}

/// The program state after declaring the function `id`: its return type and the types of
/// its parameters must be known. The function is stored without its parameters, and `id` is
/// bound in the innermost scope to a variable holding it, shadowing any other.
pub open spec fn function_decl_outcome(
    st: InterpreterView,
    id: Seq<char>,
    params: Seq<(Seq<char>, Seq<char>)>,
    body: SpecNode,
    return_type: Seq<char>,
    mutable: bool,
) -> Result<InterpreterView, RuntimeError> {
    if !st.types.contains_key(return_type) {
        Err(RuntimeError::UnknownType)
    } else if exists|i: int| 0 <= i < params.len() && !st.types.contains_key(#[trigger] params[i].1) {
        Err(RuntimeError::UnknownType)
    } else if !st.types.contains_key(builtin_name(Builtin::Fn)) {
        Err(RuntimeError::UnknownType)
    } else if st.ctx.slots.len() >= usize::MAX {
        Err(RuntimeError::StoreFull)
    } else {
        Ok(
            InterpreterView {
                functions: st.functions.push(
                    SpecFunction { name: id, params: Seq::empty(), body, return_type, mutable },
                ),
                ctx: declared(
                    st.ctx,
                    id,
                    SpecInstance {
                        mutable,
                        value: SpecValue::Function(st.functions.len()),
                        m_type: builtin_name(Builtin::Fn),
                    },
                ),
                ..st
            },
        )
    }
}

/// How a call proceeds once its arguments are in place.
#[derive(Debug, Clone, Copy, PartialEq, Eq, Structural)]
pub enum CallPlan {
    /// No variable has the name: the call goes to the builtin function of that name.
    Builtin(StandardFunction),
    /// The body of the function in slot `function` runs; when `bound`, in a new scope that
    /// holds its parameters.
    Body { function: usize, bound: bool },
}

/// The context after binding parameters `ps` to arguments `args`, in order, in its innermost
/// scope, each as a constant of the parameter's type.
pub open spec fn bind_all(c: ContextView, ps: Seq<(Seq<char>, Seq<char>)>, args: Seq<SpecValue>) -> ContextView
    decreases ps.len(),
{
    if ps.len() == 0 || args.len() == 0 {
        c
    } else {
        declared(
            bind_all(c, ps.drop_last(), args.drop_last()),
            ps.last().0,
            SpecInstance { mutable: false, value: args.last(), m_type: ps.last().1 },
        )
    }
}

/// Whether every argument is admitted by the known type of its parameter.
pub open spec fn arguments_admitted(
    types: Map<Seq<char>, Type>,
    ps: Seq<(Seq<char>, Seq<char>)>,
    args: Seq<SpecValue>,
) -> bool {
    forall|i: int|
        0 <= i < ps.len() ==> types.contains_key(#[trigger] ps[i].1) && admits(types[ps[i].1].validator, args[i])
}

/// How a call of `id` with arguments `args` proceeds, and the program state when its body
/// starts: a name that no variable has must be a builtin's, a name that a variable has must
/// be bound to a function, and a function with
/// parameters takes as many arguments, each admitted by its parameter's type.
pub open spec fn call_outcome(st: InterpreterView, id: Seq<char>, args: Seq<SpecValue>) -> Result<
    (CallPlan, InterpreterView),
    RuntimeError,
> {
    match lookup(st.ctx, id) {
        None => match builtin_named(id) {
            Some(f) => Ok((CallPlan::Builtin(f), st)),
            None => Err(RuntimeError::UnknownFunction),
        },
        Some(s) => match st.ctx.slots[s as int].value {
            SpecValue::Function(f) => if f >= st.functions.len() {
                Err(RuntimeError::DanglingReference)
            } else {
                let ps = st.functions[f as int].params;
                if ps.len() + args.len() == 0 {
                    Ok((CallPlan::Body { function: f as usize, bound: false }, st))
                } else if ps.len() != args.len() {
                    Err(RuntimeError::ArgumentCount)
                } else if !arguments_admitted(st.types, ps, args) {
                    Err(RuntimeError::TypeMismatch)
                } else if st.ctx.slots.len() + args.len() >= usize::MAX {
                    Err(RuntimeError::StoreFull)
                } else {
                    Ok((
                        CallPlan::Body { function: f as usize, bound: true },
                        InterpreterView { ctx: bind_all(pushed(st.ctx), ps, args), ..st },
                    ))
                }
            },
            _ => Err(RuntimeError::ExpectedFunction),
        },
    }
}

/// What a call gives back once its body has run: the value of a `return`, none for a bare
/// `return`; for a function without parameters any other result as it is, for one with
/// parameters none.
pub open spec fn call_result(bound: bool, result: SpecValue) -> SpecValue {
    match result {
        SpecValue::Return(Some(v)) => *v,
        SpecValue::Return(None) => SpecValue::Nothing,
        _ => if bound {
            SpecValue::Nothing
        } else {
            result
        },
    }
}

/// Where a conditional loop stops after one run of its block, and with what: a plain value
/// or a `return` without value stops it as is, a `return` with a value stops it with that value.
pub open spec fn repeat_exit(result: SpecValue) -> Option<SpecValue> {
    match result {
        SpecValue::Int(_) | SpecValue::Double(_) | SpecValue::Bool(_) | SpecValue::Function(_)
        | SpecValue::String(_) => Some(result),
        SpecValue::Return(Some(v)) => Some(*v),
        SpecValue::Return(None) => Some(result),
        _ => None,
    }
}

/// Where an unconditional loop stops after one run of its block: only a `return`, with its
/// value or none.
pub open spec fn conditionless_exit(result: SpecValue) -> Option<SpecValue> {
    match result {
        SpecValue::Return(Some(v)) => Some(*v),
        SpecValue::Return(None) => Some(SpecValue::Nothing),
        _ => None,
    }
}

impl Interpreter {
    /// The variables that values `values[from..]` become as elements of an array, each typed
    /// by the registered type of its value (see `typed_elements`); only the type registry changes.
    pub fn typed_instances(&mut self, values: &Vec<Value>, from: usize, elements_mutable: bool) -> (r: Result<
        Vec<Instance>,
        RuntimeError,
    >)
        requires
            from <= values.len(),
        ensures
            final(self)@.ctx == old(self)@.ctx,
            final(self)@.arrays == old(self)@.arrays,
            final(self)@.functions == old(self)@.functions,
            final(self)@.struct_defs == old(self)@.struct_defs,
            final(self)@.struct_values == old(self)@.struct_values,
            old(self)@.types.submap_of(final(self)@.types),
            match typed_elements(values_view(values@).skip(from as int), old(self)@.ctx.slots, old(self)@.types, elements_mutable) {
                Ok((insts, m)) => r is Ok && elements_view(r.unwrap()@) == insts && final(self)@.types == m,
                Err(e) => r == Err::<Vec<Instance>, RuntimeError>(e),
            },
    {
        let ghost vals = values_view(values@).skip(from as int);
        proof {
            lemma_values_view_len(values@);
        }
        let ghost start = self@;
        let mut out: Vec<Instance> = Vec::new();
        let mut i: usize = from;
        proof {
            assert(vals.take(0) =~= Seq::<SpecValue>::empty());
            assert(elements_view(out@) =~= Seq::<SpecInstance>::empty());
        }
        while i < values.len()
            invariant
                from <= i <= values.len(),
                vals == values_view(values@).skip(from as int),
                values_view(values@).len() == values.len(),
                start == old(self)@,
                self@.ctx == start.ctx,
                self@.arrays == start.arrays,
                self@.functions == start.functions,
                self@.struct_defs == start.struct_defs,
                self@.struct_values == start.struct_values,
                start.types.submap_of(self@.types),
                typed_elements(vals.take(i - from), start.ctx.slots, start.types, elements_mutable) == Ok::<
                    (Seq<SpecInstance>, Map<Seq<char>, Type>),
                    RuntimeError,
                >((elements_view(out@), self@.types)),
            decreases values.len() - i,
        {
            proof {
                lemma_values_view_index(values@, i as int);
                assert(vals.take(i - from + 1).drop_last() =~= vals.take(i - from));
                assert(vals.take(i - from + 1).last() == values@[i as int]@);
            }
            let ghost old_out = out@;
            let (name, _) = match self.type_checker.try_from_value(&self.context, &values[i]) {
                Ok(x) => x,
                Err(e) => {
                    proof {
                        assert(typed_elements(vals.take(i - from + 1), start.ctx.slots, start.types, elements_mutable)
                            == Err::<(Seq<SpecInstance>, Map<Seq<char>, Type>), RuntimeError>(e));
                        lemma_typed_elements_error(vals, i - from + 1, start.ctx.slots, start.types, elements_mutable);
                    }
                    return Err(e);
                },
            };
            let var = Instance::new(elements_mutable, values[i].duplicate(), name);
            out.push(var);
            proof {
                assert(elements_view(out@) =~= elements_view(old_out).push(var@));
            }
            i = i + 1;
        }
        proof {
            assert(vals.take(values.len() - from) =~= vals);
        }
        Ok(out)
    }

    /// Evaluates an array literal (see `array_outcome`); on an error no variable, array or
    /// function changes.
    pub fn try_visit_array(
        &mut self,
        init_capacity: usize,
        elements: &Vec<Value>,
        mutable: bool,
        elements_mutable: bool,
    ) -> (r: Result<Value, RuntimeError>)
        ensures
            match array_outcome(old(self)@, init_capacity as int, values_view(elements@), mutable, elements_mutable) {
                Ok((v, st)) => r is Ok && r.unwrap()@ == v && final(self)@ == st,
                Err(e) => r == Err::<Value, RuntimeError>(e) && final(self)@.ctx == old(self)@.ctx
                    && final(self)@.arrays == old(self)@.arrays && final(self)@.functions == old(self)@.functions
                    && old(self)@.types.submap_of(final(self)@.types),
            },
    {
        proof {
            lemma_values_view_len(elements@);
            assert(values_view(elements@).skip(0) =~= values_view(elements@));
        }
        if init_capacity < elements.len() {
            return Err(RuntimeError::ArrayTooLong);
        }
        let ghost start = self@;
        let values = match self.typed_instances(elements, 0, elements_mutable) {
            Ok(v) => v,
            Err(e) => return Err(e),
        };
        let slot = self.arrays.len();
        self.arrays.push(values);
        proof {
            assert(self@.arrays =~= start.arrays.push(elements_view(values@)));
        }
        Ok(Value::Array(mutable, slot))
    }

    /// Builds the array literal that `array_outcome` allows.
    pub fn visit_array(
        &mut self,
        init_capacity: usize,
        elements: &Vec<Value>,
        mutable: bool,
        elements_mutable: bool,
    ) -> (r: Value)
        requires
            array_outcome(old(self)@, init_capacity as int, values_view(elements@), mutable, elements_mutable) is Ok,
        ensures
            r@ == array_outcome(old(self)@, init_capacity as int, values_view(elements@), mutable, elements_mutable)->Ok_0.0,
            final(self)@ == array_outcome(old(self)@, init_capacity as int, values_view(elements@), mutable, elements_mutable)->Ok_0.1,
    {
        self.try_visit_array(init_capacity, elements, mutable, elements_mutable).unwrap()
    }
}

impl Interpreter {
    /// Declares the function `id` (see `function_decl_outcome`); on an error nothing changes.
    pub fn try_visit_function_decl(
        &mut self,
        id: &str,
        params: &Vec<Parameter>,
        body: Node,
        return_t: &str,
        mutable: bool,
    ) -> (r: Result<(), RuntimeError>)
        ensures
            match function_decl_outcome(old(self)@, id@, params_view(params@), body@, return_t@, mutable) {
                Ok(st) => r is Ok && final(self)@ == st,
                Err(e) => r == Err::<(), RuntimeError>(e) && final(self)@ == old(self)@,
            },
    {
        let ghost ps = params_view(params@);
        if self.type_checker.get(return_t).is_none() {
            return Err(RuntimeError::UnknownType);
        }
        let mut i: usize = 0;
        while i < params.len()
            invariant
                i <= params.len(),
                ps == params_view(params@),
                forall|j: int| 0 <= j < i ==> self@.types.contains_key(#[trigger] ps[j].1),
            decreases params.len() - i,
        {
            if !self.type_checker.types.contains_key(params[i].m_type.as_str()) {
                assert(!self@.types.contains_key(ps[i as int].1));
                return Err(RuntimeError::UnknownType);
            }
            i = i + 1;
        }
        let fn_name = builtin_name_string(Builtin::Fn);
        if self.type_checker.get(fn_name.as_str()).is_none() {
            return Err(RuntimeError::UnknownType);
        }
        if self.context.slot_count() == usize::MAX {
            return Err(RuntimeError::StoreFull);
        }
        let ghost old_view = self@;
        let func = Function {
            name: id.to_owned(),
            params: Vec::new(),
            body: Box::new(body),
            return_type: return_t.to_owned(),
            mutable,
        };
        let f = self.functions.len();
        self.functions.push(func);
        let var = Instance::new(mutable, Value::Function(f), fn_name);
        self.context.insert_variable(id, var);
        proof {
            assert(func@.params =~= Seq::<(Seq<char>, Seq<char>)>::empty());
            assert(self@.functions =~= old_view.functions.push(func@));
        }
        Ok(())
    }

    /// Declares the function `id` where `function_decl_outcome` allows it.
    pub fn visit_function_decl(
        &mut self,
        id: &str,
        params: &Vec<Parameter>,
        body: Node,
        return_t: &str,
        mutable: bool,
    )
        requires
            function_decl_outcome(old(self)@, id@, params_view(params@), body@, return_t@, mutable) is Ok,
        ensures
            final(self)@ == function_decl_outcome(old(self)@, id@, params_view(params@), body@, return_t@, mutable)->Ok_0,
    {
        self.try_visit_function_decl(id, params, body, return_t, mutable).unwrap()
    }

    /// Prepares a call of `id` with arguments `args` (see `call_outcome`): for a function
    /// with parameters, opens a scope that binds them; on an error nothing changes.
    pub fn try_prepare_call(&mut self, id: &str, args: &Vec<Value>) -> (r: Result<CallPlan, RuntimeError>)
        ensures
            match call_outcome(old(self)@, id@, values_view(args@)) {
                Ok((plan, st)) => r == Ok::<CallPlan, RuntimeError>(plan) && final(self)@ == st,
                Err(e) => r == Err::<CallPlan, RuntimeError>(e) && final(self)@ == old(self)@,
            },
    {
        let ghost avs = values_view(args@);
        proof {
            lemma_values_view_len(args@);
        }
        let s = match self.context.find_variable(id) {
            Some(s) => s,
            None => {
                return match get_builtin_function(id) {
                    Some(f) => {
                        proof {
                            lemma_builtin_named(id@, f);
                        }
                        Ok(CallPlan::Builtin(f))
                    },
                    None => Err(RuntimeError::UnknownFunction),
                };
            },
        };
        let f = match self.context.instance(s).value {
            Value::Function(f) => f,
            _ => return Err(RuntimeError::ExpectedFunction),
        };
        if f >= self.functions.len() {
            return Err(RuntimeError::DanglingReference);
        }
        let ghost ps = self@.functions[f as int].params;
        assert(ps == params_view(self.functions@[f as int].params@));
        let nparams = self.functions[f].params.len();
        if nparams == 0 && args.len() == 0 {
            return Ok(CallPlan::Body { function: f, bound: false });
        }
        if nparams != args.len() {
            return Err(RuntimeError::ArgumentCount);
        }
        let mut i: usize = 0;
        while i < nparams
            invariant
                self@ == old(self)@,
                lookup(self@.ctx, id@) == Some(s),
                self@.ctx.slots[s as int].value == SpecValue::Function(f as nat),
                ps == self@.functions[f as int].params,
                i <= nparams,
                nparams == args.len(),
                f < self.functions.len(),
                nparams == self.functions@[f as int].params@.len(),
                ps == params_view(self.functions@[f as int].params@),
                avs == values_view(args@),
                avs.len() == args.len(),
                forall|j: int|
                    0 <= j < i ==> self@.types.contains_key(#[trigger] ps[j].1) && admits(
                        self@.types[ps[j].1].validator,
                        avs[j],
                    ),
            decreases nparams - i,
        {
            proof {
                lemma_values_view_index(args@, i as int);
            }
            let admitted = match self.type_checker.get(self.functions[f].params[i].m_type.as_str()) {
                Some(t) => t.validate(&args[i]),
                None => false,
            };
            if !admitted {
                assert(!(self@.types.contains_key(ps[i as int].1) && admits(
                    self@.types[ps[i as int].1].validator,
                    avs[i as int],
                )));
                return Err(RuntimeError::TypeMismatch);
            }
            i = i + 1;
        }
        if self.context.slot_count() >= usize::MAX - args.len() {
            return Err(RuntimeError::StoreFull);
        }
        let ghost start = self@;
        self.context.push_scope();
        let mut k: usize = 0;
        proof {
            assert(ps.take(0) =~= Seq::<(Seq<char>, Seq<char>)>::empty());
            assert(avs.take(0) =~= Seq::<SpecValue>::empty());
        }
        while k < nparams
            invariant
                k <= nparams,
                nparams == args.len(),
                f < self.functions.len(),
                nparams == self.functions@[f as int].params@.len(),
                ps == params_view(self.functions@[f as int].params@),
                avs == values_view(args@),
                avs.len() == args.len(),
                start.ctx.slots.len() + args.len() < usize::MAX,
                self@.ctx == bind_all(pushed(start.ctx), ps.take(k as int), avs.take(k as int)),
                self@.ctx.slots.len() == start.ctx.slots.len() + k,
                self@.arrays == start.arrays,
                self@.functions == start.functions,
                self@.types == start.types,
                self@.struct_defs == start.struct_defs,
                self@.struct_values == start.struct_values,
            decreases nparams - k,
        {
            proof {
                lemma_values_view_index(args@, k as int);
                assert(ps.take(k + 1).drop_last() =~= ps.take(k as int));
                assert(avs.take(k + 1).drop_last() =~= avs.take(k as int));
            }
            let var = Instance::new(false, args[k].duplicate(), self.functions[f].params[k].m_type.clone());
            self.context.insert_variable(self.functions[f].params[k].name.as_str(), var);
            k = k + 1;
        }
        proof {
            assert(ps.take(nparams as int) =~= ps);
            assert(avs.take(nparams as int) =~= avs);
        }
        Ok(CallPlan::Body { function: f, bound: true })
    }

    /// Prepares a call of `id` with arguments `args` that `call_outcome` allows.
    pub fn prepare_call(&mut self, id: &str, args: &Vec<Value>) -> (r: CallPlan)
        requires
            call_outcome(old(self)@, id@, values_view(args@)) is Ok,
        ensures
            r == call_outcome(old(self)@, id@, values_view(args@))->Ok_0.0,
            final(self)@ == call_outcome(old(self)@, id@, values_view(args@))->Ok_0.1,
    {
        self.try_prepare_call(id, args).unwrap()
    }

    /// Prepares the method call `receiver.id(args)`: the call of `id` with the receiver as its
    /// first argument, before `args` (see `call_outcome`); on an error nothing changes.
    pub fn try_prepare_method_call(&mut self, receiver: &Value, id: &str, args: &Vec<Value>) -> (r: Result<
        CallPlan,
        RuntimeError,
    >)
        ensures
            match call_outcome(old(self)@, id@, seq![receiver@] + values_view(args@)) {
                Ok((plan, st)) => r == Ok::<CallPlan, RuntimeError>(plan) && final(self)@ == st,
                Err(e) => r == Err::<CallPlan, RuntimeError>(e) && final(self)@ == old(self)@,
            },
    {
        let mut all: Vec<Value> = Vec::new();
        all.push(receiver.duplicate());
        proof {
            assert(all@.drop_last() =~= Seq::<Value>::empty());
            assert(args@.take(0) =~= Seq::<Value>::empty());
            assert(values_view(all@) =~= seq![receiver@] + values_view(args@.take(0)));
        }
        let mut i: usize = 0;
        while i < args.len()
            invariant
                i <= args.len(),
                values_view(all@) == seq![receiver@] + values_view(args@.take(i as int)),
            decreases args.len() - i,
        {
            let ghost before = all@;
            all.push(args[i].duplicate());
            proof {
                assert(all@.drop_last() =~= before);
                assert(args@.take(i + 1).drop_last() =~= args@.take(i as int));
                assert(args@.take(i + 1).last() == args@[i as int]);
                assert(values_view(all@) =~= seq![receiver@] + values_view(args@.take(i + 1)));
            }
            i = i + 1;
        }
        proof {
            assert(args@.take(args.len() as int) =~= args@);
        }
        self.try_prepare_call(id, &all)
    }

    /// Prepares the method call `receiver.id(args)` where `call_outcome` allows it.
    pub fn prepare_method_call(&mut self, receiver: &Value, id: &str, args: &Vec<Value>) -> (r: CallPlan)
        requires
            call_outcome(old(self)@, id@, seq![receiver@] + values_view(args@)) is Ok,
        ensures
            r == call_outcome(old(self)@, id@, seq![receiver@] + values_view(args@))->Ok_0.0,
            final(self)@ == call_outcome(old(self)@, id@, seq![receiver@] + values_view(args@))->Ok_0.1,
    {
        self.try_prepare_method_call(receiver, id, args).unwrap()
    }

    /// Ends a call whose body gave `result` (see `call_result`), closing the scope of its
    /// parameters when it has one.
    pub fn finish_call(&mut self, bound: bool, result: Value) -> (r: Value)
        requires
            bound ==> old(self)@.ctx.scopes.len() > 1,
        ensures
            r@ == call_result(bound, result@),
            final(self)@ == if bound {
                InterpreterView { ctx: popped(old(self)@.ctx), ..old(self)@ }
            } else {
                old(self)@
            },
    {
        if bound {
            self.context.pop_scope();
        }
        match result {
            Value::Return(Some(v)) => *v,
            Value::Return(None) => Value::Nothing(),
            _ => if bound {
                Value::Nothing()
            } else {
                result
            },
        }
    }

    /// The boolean a condition evaluated to.
    pub fn condition_value(v: &Value) -> (r: Result<bool, RuntimeError>)
        ensures
            match v@ {
                SpecValue::Bool(b) => r == Ok::<bool, RuntimeError>(b),
                _ => r == Err::<bool, RuntimeError>(RuntimeError::ExpectedBoolean),
            },
    {
        match v {
            Value::Bool(b) => Ok(*b),
            _ => Err(RuntimeError::ExpectedBoolean),
        }
    }

    /// Whether a block stops after one of its statements gave `result`: a `return`, with or
    /// without a value, is handed up as it is; anything else lets the next statement run.
    pub fn block_exit(result: Value) -> (r: Option<Value>)
        ensures
            match result@ {
                SpecValue::Return(_) => r is Some && r.unwrap()@ == result@,
                _ => r is None,
            },
    {
        match result {
            Value::Return(_) => Some(result),
            _ => None,
        }
    }

    /// Whether a conditional loop stops after its block gave `result`, and with what (see
    /// `repeat_exit`).
    pub fn repeat_exit(result: Value) -> (r: Option<Value>)
        ensures
            match r {
                Some(v) => repeat_exit(result@) == Some(v@),
                None => repeat_exit(result@) is None,
            },
    {
        match result {
            Value::Int(_) | Value::Double(_) | Value::Bool(_) | Value::Function(_) | Value::String(_) => Some(
                result,
            ),
            Value::Return(Some(v)) => Some(*v),
            Value::Return(None) => Some(Value::Return(None)),
            _ => None,
        }
    }

    /// Whether an unconditional loop, or a program, stops after a statement gave `result`,
    /// and with what (see `conditionless_exit`).
    pub fn conditionless_exit(result: Value) -> (r: Option<Value>)
        ensures
            match r {
                Some(v) => conditionless_exit(result@) == Some(v@),
                None => conditionless_exit(result@) is None,
            },
    {
        match result {
            Value::Return(Some(v)) => Some(*v),
            Value::Return(None) => Some(Value::Nothing()),
            _ => None,
        }
    }
}


/// Where an `if` (or one of its `else` branches) goes on.
#[derive(Debug, Clone, Copy, PartialEq, Eq, Structural)]
pub enum Branch {
    /// Run this branch's block, in a scope of its own.
    Block,
    /// Go on to the next `else` branch.
    Next,
    /// No branch runs; the statement gives none.
    Done,
}

/// Where a branch with condition value `condition` (none for a bare `else`) goes on, when
/// another `else` branch follows or not.
pub open spec fn branch_outcome(condition: Option<SpecValue>, has_next: bool) -> Result<Branch, RuntimeError> {
    match condition {
        None => Ok(Branch::Block),
        Some(SpecValue::Bool(true)) => Ok(Branch::Block),
        Some(SpecValue::Bool(false)) => if has_next {
            Ok(Branch::Next)
        } else {
            Ok(Branch::Done)
        },
        Some(_) => Err(RuntimeError::ExpectedBoolean),
    }
}

impl Interpreter {
    /// Where a branch goes on (see `branch_outcome`).
    pub fn try_choose_branch(condition: Option<&Value>, has_next: bool) -> (r: Result<Branch, RuntimeError>)
        ensures
            r == branch_outcome(
                match condition {
                    Some(v) => Some(v@),
                    None => None,
                },
                has_next,
            ),
    {
        match condition {
            None => Ok(Branch::Block),
            Some(v) => match Self::condition_value(v) {
                Ok(true) => Ok(Branch::Block),
                Ok(false) => if has_next {
                    Ok(Branch::Next)
                } else {
                    Ok(Branch::Done)
                },
                Err(e) => Err(e),
            },
        }
    }

    /// Where a branch whose condition, if any, is a boolean goes on.
    pub fn choose_branch(condition: Option<&Value>, has_next: bool) -> (r: Branch)
        requires
            condition matches Some(v) ==> v@ is Bool,
        ensures
            Ok::<Branch, RuntimeError>(r) == branch_outcome(
                match condition {
                    Some(v) => Some(v@),
                    None => None,
                },
                has_next,
            ),
    {
        Self::try_choose_branch(condition, has_next).unwrap()
    }
}

/// What a loop asks for next.
#[derive(Debug)]
pub enum LoopStep {
    /// Evaluate the loop's condition and hand its value to `repeat_on_condition`.
    EvaluateCondition,
    /// Run the loop's block in the scope just opened for it, and hand its result to
    /// `repeat_after_block` (or, for a loop without condition, `conditionless_after_block`).
    RunBlock,
    /// The loop is over, with this value.
    Finished(Value),
}

impl Interpreter {
    /// Starts a conditional loop: opens the loop's scope; its condition comes next.
    pub fn repeat_begin(&mut self) -> (r: LoopStep)
        ensures
            r is EvaluateCondition,
            final(self)@ == (InterpreterView { ctx: pushed(old(self)@.ctx), ..old(self)@ }),
    {
        self.push_ctx();
        LoopStep::EvaluateCondition
    }

    /// Goes on with a conditional loop whose condition gave `condition`: on `true` a scope
    /// opens for the block, which runs next; on `false` the loop's scope closes and the loop
    /// ends with none; any other value is an error, and nothing changes.
    pub fn try_repeat_on_condition(&mut self, condition: &Value) -> (r: Result<LoopStep, RuntimeError>)
        requires
            old(self)@.ctx.scopes.len() > 1,
        ensures
            match condition@ {
                SpecValue::Bool(true) => r is Ok && r.unwrap() is RunBlock
                    && final(self)@ == (InterpreterView { ctx: pushed(old(self)@.ctx), ..old(self)@ }),
                SpecValue::Bool(false) => r is Ok && (r.unwrap() matches LoopStep::Finished(v) && v@
                    == SpecValue::Nothing)
                    && final(self)@ == (InterpreterView { ctx: popped(old(self)@.ctx), ..old(self)@ }),
                _ => r == Err::<LoopStep, RuntimeError>(RuntimeError::ExpectedBoolean) && final(self)@ == old(self)@,
            },
    {
        match Self::condition_value(condition) {
            Ok(true) => {
                self.push_ctx();
                Ok(LoopStep::RunBlock)
            },
            Ok(false) => {
                self.pop_ctx();
                Ok(LoopStep::Finished(Value::Nothing()))
            },
            Err(e) => Err(e),
        }
    }

    /// Goes on with a conditional loop whose condition gave a boolean (see
    /// `try_repeat_on_condition`).
    pub fn repeat_on_condition(&mut self, condition: &Value) -> (r: LoopStep)
        requires
            old(self)@.ctx.scopes.len() > 1,
            condition@ is Bool,
        ensures
            condition@ == SpecValue::Bool(true) ==> r is RunBlock
                && final(self)@ == (InterpreterView { ctx: pushed(old(self)@.ctx), ..old(self)@ }),
            condition@ == SpecValue::Bool(false) ==> (r matches LoopStep::Finished(v) && v@ == SpecValue::Nothing)
                && final(self)@ == (InterpreterView { ctx: popped(old(self)@.ctx), ..old(self)@ }),
    {
        self.try_repeat_on_condition(condition).unwrap()
    }

    /// Goes on with a conditional loop whose block gave `result`: the block's scope closes;
    /// the loop ends where `repeat_exit` says, else its condition comes next.
    pub fn repeat_after_block(&mut self, result: Value) -> (r: LoopStep)
        requires
            old(self)@.ctx.scopes.len() > 1,
        ensures
            final(self)@ == (InterpreterView { ctx: popped(old(self)@.ctx), ..old(self)@ }),
            match repeat_exit(result@) {
                Some(v) => r matches LoopStep::Finished(x) && x@ == v,
                None => r is EvaluateCondition,
            },
    {
        self.pop_ctx();
        match Self::repeat_exit(result) {
            Some(v) => LoopStep::Finished(v),
            None => LoopStep::EvaluateCondition,
        }
    }

    /// Starts a loop without condition: opens a scope for its block, which runs next.
    pub fn conditionless_begin(&mut self) -> (r: LoopStep)
        ensures
            r is RunBlock,
            final(self)@ == (InterpreterView { ctx: pushed(old(self)@.ctx), ..old(self)@ }),
    {
        self.push_ctx();
        LoopStep::RunBlock
    }

    /// Goes on with a loop without condition whose block gave `result`: the block's scope
    /// closes; the loop ends where `conditionless_exit` says, else a new scope opens and the
    /// block runs again.
    pub fn conditionless_after_block(&mut self, result: Value) -> (r: LoopStep)
        requires
            old(self)@.ctx.scopes.len() > 1,
        ensures
            match conditionless_exit(result@) {
                Some(v) => (r matches LoopStep::Finished(x) && x@ == v)
                    && final(self)@ == (InterpreterView { ctx: popped(old(self)@.ctx), ..old(self)@ }),
                None => r is RunBlock
                    && final(self)@ == (InterpreterView { ctx: pushed(popped(old(self)@.ctx)), ..old(self)@ }),
            },
    {
        self.pop_ctx();
        match Self::conditionless_exit(result) {
            Some(v) => LoopStep::Finished(v),
            None => {
                self.push_ctx();
                LoopStep::RunBlock
            },
        }
    }
}

/// The scopes of a conditional loop between block runs stay those it started with, when each
/// run of the block changes only the block's own scope.
proof fn lemma_loop_scope_steady(before: ContextView, loop_ctxs: Seq<ContextView>, block_ends: Seq<ContextView>)
    requires
        loop_ctxs.len() == block_ends.len() + 1,
        loop_ctxs[0] == pushed(before),
        forall|i: int| 0 <= i < block_ends.len() ==> (#[trigger] block_ends[i]).scopes.drop_last() == pushed(loop_ctxs[i]).scopes.drop_last(),
        forall|i: int| 0 <= i < block_ends.len() ==> loop_ctxs[i + 1] == popped(#[trigger] block_ends[i]),
    ensures
        loop_ctxs.last().scopes == pushed(before).scopes,
    decreases block_ends.len(),
{
    if block_ends.len() > 0 {
        let k = block_ends.len() - 1;
        lemma_loop_scope_steady(before, loop_ctxs.drop_last(), block_ends.drop_last());
        assert(loop_ctxs[k + 1] == popped(block_ends[k]));
        assert(pushed(loop_ctxs[k]).scopes.drop_last() =~= loop_ctxs[k].scopes);
    }
}

/// A conditional loop that ends because its condition turned false leaves the scopes as they
/// were before it, when each run of its block changes only the block's own scope:
/// `loop_ctxs[0]` is the context after `repeat_begin`, `block_ends[i]` the context when the
/// block's run `i` ends (it started in `pushed(loop_ctxs[i])`), and `loop_ctxs[i + 1]` the
/// context after `repeat_after_block`.
pub proof fn lemma_repeat_restores_scopes(before: ContextView, loop_ctxs: Seq<ContextView>, block_ends: Seq<ContextView>)
    requires
        loop_ctxs.len() == block_ends.len() + 1,
        loop_ctxs[0] == pushed(before),
        forall|i: int| 0 <= i < block_ends.len() ==> (#[trigger] block_ends[i]).scopes.drop_last() == pushed(loop_ctxs[i]).scopes.drop_last(),
        forall|i: int| 0 <= i < block_ends.len() ==> loop_ctxs[i + 1] == popped(#[trigger] block_ends[i]),
    ensures
        popped(loop_ctxs.last()).scopes == before.scopes,
{
    lemma_loop_scope_steady(before, loop_ctxs, block_ends);
    assert(pushed(before).scopes.drop_last() =~= before.scopes);
}

/// Law: on two integers the six comparisons are the mathematical relations, so that, for
/// instance, `a <= b` is the negation of `a > b` and the same as `b >= a`.
pub proof fn lemma_integer_comparisons(a: i32, b: i32)
    ensures
        relational_outcome(TokenKind::LeftAngle, SpecValue::Int(a), SpecValue::Int(b))
            == Ok::<SpecValue, RuntimeError>(SpecValue::Bool(a < b)),
        relational_outcome(TokenKind::LessThanEquals, SpecValue::Int(a), SpecValue::Int(b))
            == Ok::<SpecValue, RuntimeError>(SpecValue::Bool(a <= b)),
        relational_outcome(TokenKind::RightAngle, SpecValue::Int(a), SpecValue::Int(b))
            == Ok::<SpecValue, RuntimeError>(SpecValue::Bool(a > b)),
        relational_outcome(TokenKind::GreaterThanEquals, SpecValue::Int(a), SpecValue::Int(b))
            == Ok::<SpecValue, RuntimeError>(SpecValue::Bool(a >= b)),
        relational_outcome(TokenKind::Equals, SpecValue::Int(a), SpecValue::Int(b))
            == Ok::<SpecValue, RuntimeError>(SpecValue::Bool(a == b)),
        relational_outcome(TokenKind::NotEquals, SpecValue::Int(a), SpecValue::Int(b))
            == Ok::<SpecValue, RuntimeError>(SpecValue::Bool(a != b)),
        relational_outcome(TokenKind::LessThanEquals, SpecValue::Int(a), SpecValue::Int(b))
            == relational_outcome(TokenKind::GreaterThanEquals, SpecValue::Int(b), SpecValue::Int(a)),
        relational_outcome(TokenKind::LeftAngle, SpecValue::Int(a), SpecValue::Int(b))
            == relational_outcome(TokenKind::RightAngle, SpecValue::Int(b), SpecValue::Int(a)),
{
}

/// Law: booleans and strings compare only for equality, which is equality of the values;
/// operands of different kinds (numbers aside) do not compare.
pub proof fn lemma_equality_comparisons(op: TokenKind, l: SpecValue, r: SpecValue)
    ensures
        (l is Bool && r is Bool) || (l is String && r is String) ==> relational_outcome(op, l, r) == (
        if op == TokenKind::Equals {
            Ok::<SpecValue, RuntimeError>(SpecValue::Bool(l == r))
        } else if op == TokenKind::NotEquals {
            Ok::<SpecValue, RuntimeError>(SpecValue::Bool(l != r))
        } else {
            Err::<SpecValue, RuntimeError>(RuntimeError::InvalidOperator)
        }),
        !((l is Bool && r is Bool) || (l is String && r is String) || (l is Int && r is Int))
            ==> relational_outcome(op, l, r) == Err::<SpecValue, RuntimeError>(RuntimeError::InvalidOperator),
        relational_outcome(op, l, r) is Ok ==> relational_outcome(op, l, r)->Ok_0 is Bool,
{
}

/// Law: integer `+`, `-` and `*` give the exact sum, difference and product when it fits in
/// 32 bits, and an overflow otherwise; `/` by zero is an error, and `/` of a non-negative
/// integer by a positive one is the floor of the quotient.
pub proof fn lemma_integer_arithmetic(a: i32, b: i32)
    ensures
        binary_outcome(TokenKind::Add, SpecValue::Int(a), SpecValue::Int(b)) == (if i32::MIN <= a + b <= i32::MAX {
            Ok::<SpecValue, RuntimeError>(SpecValue::Int((a + b) as i32))
        } else {
            Err::<SpecValue, RuntimeError>(RuntimeError::IntegerOverflow)
        }),
        binary_outcome(TokenKind::Subtract, SpecValue::Int(a), SpecValue::Int(b)) == (if i32::MIN <= a - b <= i32::MAX {
            Ok::<SpecValue, RuntimeError>(SpecValue::Int((a - b) as i32))
        } else {
            Err::<SpecValue, RuntimeError>(RuntimeError::IntegerOverflow)
        }),
        binary_outcome(TokenKind::Multiply, SpecValue::Int(a), SpecValue::Int(b)) == (if i32::MIN <= a * b <= i32::MAX {
            Ok::<SpecValue, RuntimeError>(SpecValue::Int((a * b) as i32))
        } else {
            Err::<SpecValue, RuntimeError>(RuntimeError::IntegerOverflow)
        }),
        b == 0 ==> binary_outcome(TokenKind::Divide, SpecValue::Int(a), SpecValue::Int(b))
            == Err::<SpecValue, RuntimeError>(RuntimeError::DivisionByZero),
        a >= 0 && b > 0 ==> binary_outcome(TokenKind::Divide, SpecValue::Int(a), SpecValue::Int(b))
            == Ok::<SpecValue, RuntimeError>(SpecValue::Int((a as int / b as int) as i32)),
        term_outcome(TokenKind::Multiply, SpecValue::Int(a), SpecValue::Int(b))
            == binary_outcome(TokenKind::Multiply, SpecValue::Int(a), SpecValue::Int(b)),
        term_outcome(TokenKind::Divide, SpecValue::Int(a), SpecValue::Int(b))
            == binary_outcome(TokenKind::Divide, SpecValue::Int(a), SpecValue::Int(b)),
{
    if a >= 0 && b > 0 {
        assert(0 <= a as int / b as int <= a) by (nonlinear_arith)
            requires
                a >= 0,
                b > 0,
        ;
    }
}

/// Law: `&&` and `||` on two booleans are conjunction and disjunction.
pub proof fn lemma_logical_operations(a: bool, b: bool)
    ensures
        logical_outcome(TokenKind::LogicalAnd, SpecValue::Bool(a), SpecValue::Bool(b))
            == Ok::<SpecValue, RuntimeError>(SpecValue::Bool(a && b)),
        logical_outcome(TokenKind::LogicalOr, SpecValue::Bool(a), SpecValue::Bool(b))
            == Ok::<SpecValue, RuntimeError>(SpecValue::Bool(a || b)),
{
}

/// Law: a branch whose condition holds, or a bare `else`, runs its own block whatever follows
/// it; the next branch is taken only when the condition is false and another branch follows;
/// nothing runs only when the condition is false and none follows; a condition that is not a
/// boolean is an error.
pub proof fn lemma_branch_choice(condition: Option<SpecValue>, has_next: bool)
    ensures
        branch_outcome(condition, has_next) == Ok::<Branch, RuntimeError>(Branch::Block) <==> (condition is None
            || condition == Some(SpecValue::Bool(true))),
        branch_outcome(condition, has_next) == Ok::<Branch, RuntimeError>(Branch::Next) <==> (condition == Some(
            SpecValue::Bool(false),
        ) && has_next),
        branch_outcome(condition, has_next) == Ok::<Branch, RuntimeError>(Branch::Done) <==> (condition == Some(
            SpecValue::Bool(false),
        ) && !has_next),
        branch_outcome(condition, has_next) is Err <==> (condition matches Some(v) && !(v is Bool)),
{
}

/// Law: a call gives what its body's `return` hands back, whether or not it binds parameters,
/// and none for a bare `return`; without a `return`, a call that binds parameters gives none
/// and one that does not gives the body's value.
pub proof fn lemma_call_gives_returned_value(bound: bool, v: SpecValue, r: SpecValue)
    ensures
        call_result(bound, SpecValue::Return(Some(Box::new(v)))) == v,
        call_result(bound, SpecValue::Return(None)) == SpecValue::Nothing,
        !(r is Return) ==> call_result(true, r) == SpecValue::Nothing && call_result(false, r) == r,
{
}

/// Law: a `return` with a value ends any loop with that value; a loop without condition ends
/// only on a `return`; a conditional loop goes on after a block that gives none.
pub proof fn lemma_loops_end_on_return(v: SpecValue, r: SpecValue)
    ensures
        repeat_exit(SpecValue::Return(Some(Box::new(v)))) == Some(v),
        conditionless_exit(SpecValue::Return(Some(Box::new(v)))) == Some(v),
        conditionless_exit(SpecValue::Return(None)) == Some(SpecValue::Nothing),
        !(r is Return) ==> conditionless_exit(r) is None,
        repeat_exit(SpecValue::Nothing) is None,
{
}

/// A variable just declared is what its name resolves to, and reading it gives the declared
/// value (none when there was no value).
pub proof fn lemma_read_after_declare(st: InterpreterView, id: Seq<char>, tname: Seq<char>, value: SpecValue, mutable: bool)
    requires
        context_wf(st.ctx),
        declare_outcome(st, id, tname, value, mutable) is Ok,
    ensures
        ({
            let st2 = declare_outcome(st, id, tname, value, mutable)->Ok_0;
            &&& lookup(st2.ctx, id) == Some(st.ctx.slots.len() as usize)
            &&& deref_value(SpecValue::Reference(st.ctx.slots.len()), st2.ctx.slots) == Ok::<SpecValue, RuntimeError>(value)
        }),
{
    lemma_find_after_declare(st.ctx, id, SpecInstance { mutable, value, m_type: tname });
}

/// Law: a name cannot be declared again while its variable is in scope, and a variable
/// declared as a constant cannot be assigned.
pub proof fn lemma_declarations_stick(
    st: InterpreterView,
    id: Seq<char>,
    tname: Seq<char>,
    value: SpecValue,
    mutable: bool,
    tname2: Seq<char>,
    value2: SpecValue,
    mutable2: bool,
)
    requires
        context_wf(st.ctx),
        declare_outcome(st, id, tname, value, mutable) is Ok,
    ensures
        ({
            let st2 = declare_outcome(st, id, tname, value, mutable)->Ok_0;
            &&& declare_outcome(st2, id, tname2, value2, mutable2) is Err
            &&& st2.types.contains_key(tname2) && (value2 is Nothing || admits(st2.types[tname2].validator, value2))
                ==> declare_outcome(st2, id, tname2, value2, mutable2) == Err::<InterpreterView, RuntimeError>(
                RuntimeError::Redefinition,
            )
            &&& !mutable ==> assign_outcome(st2, SpecValue::Reference(st.ctx.slots.len()), value2)
                == Err::<InterpreterView, RuntimeError>(RuntimeError::AssignmentToConstant)
        }),
{
    lemma_find_after_declare(st.ctx, id, SpecInstance { mutable, value, m_type: tname });
}

/// Reading a variable after assigning it gives the assigned value, and every name still
/// resolves as before.
pub proof fn lemma_read_after_assign(st: InterpreterView, s: nat, value: SpecValue)
    requires
        assign_outcome(st, SpecValue::Reference(s), value) is Ok,
    ensures
        ({
            let st2 = assign_outcome(st, SpecValue::Reference(s), value)->Ok_0;
            &&& deref_value(SpecValue::Reference(s), st2.ctx.slots) == Ok::<SpecValue, RuntimeError>(value)
            &&& forall|name: Seq<char>| lookup(st2.ctx, name) == lookup(st.ctx, name)
        }),
{
    lemma_find_after_overwrite(st.ctx, s as int, value);
}

/// Reading an array element after assigning it gives the assigned value.
pub proof fn lemma_read_after_array_assign(st: InterpreterView, id: Seq<char>, index: int, value: SpecValue)
    requires
        0 <= index,
        array_assign_outcome(st, id, index, value) is Ok,
    ensures
        array_element(array_assign_outcome(st, id, index, value)->Ok_0, id, index) == Ok::<SpecValue, RuntimeError>(value),
{
}

/// A call that binds parameters runs its body one scope deeper; closing that scope gives back
/// the scopes the call started from.
pub proof fn lemma_call_scope_restored(st: InterpreterView, id: Seq<char>, args: Seq<SpecValue>)
    requires
        call_outcome(st, id, args) is Ok,
        call_outcome(st, id, args)->Ok_0.0 matches CallPlan::Body { bound: true, .. },
    ensures
        popped(call_outcome(st, id, args)->Ok_0.1.ctx).scopes == st.ctx.scopes,
        call_outcome(st, id, args)->Ok_0.1.ctx.scopes.len() == st.ctx.scopes.len() + 1,
{
    let s = lookup(st.ctx, id)->Some_0;
    let f = st.ctx.slots[s as int].value->Function_0;
    let ps = st.functions[f as int].params;
    lemma_bind_all_scopes(pushed(st.ctx), ps, args);
    assert(popped(pushed(st.ctx)).scopes =~= st.ctx.scopes);
}

/// Binding parameters changes only the innermost scope.
proof fn lemma_bind_all_scopes(c: ContextView, ps: Seq<(Seq<char>, Seq<char>)>, args: Seq<SpecValue>)
    requires
        c.scopes.len() >= 1,
    ensures
        bind_all(c, ps, args).scopes.len() == c.scopes.len(),
        bind_all(c, ps, args).scopes.drop_last() == c.scopes.drop_last(),
    decreases ps.len(),
{
    if ps.len() > 0 && args.len() > 0 {
        lemma_bind_all_scopes(c, ps.drop_last(), args.drop_last());
        let b = bind_all(c, ps.drop_last(), args.drop_last());
        let d = bind_all(c, ps, args);
        assert(d.scopes.drop_last() =~= b.scopes.drop_last());
    }
}


/// Binding distinct parameter names one after another: each name resolves to a new slot that
/// holds its argument, and the old slots stay.
proof fn lemma_bind_all_binds(c: ContextView, ps: Seq<(Seq<char>, Seq<char>)>, args: Seq<SpecValue>)
    requires
        context_wf(c),
        ps.len() == args.len(),
        forall|i: int, j: int| 0 <= i < j < ps.len() ==> (#[trigger] ps[i]).0 != (#[trigger] ps[j]).0,
    ensures
        context_wf(bind_all(c, ps, args)),
        bind_all(c, ps, args).slots.len() == c.slots.len() + ps.len(),
        forall|s: int| 0 <= s < c.slots.len() ==> #[trigger] bind_all(c, ps, args).slots[s] == c.slots[s],
        forall|i: int|
            0 <= i < ps.len() ==> lookup(bind_all(c, ps, args), (#[trigger] ps[i]).0) == Some((c.slots.len() + i) as usize)
                && bind_all(c, ps, args).slots[c.slots.len() + i] == (SpecInstance {
                mutable: false,
                value: args[i],
                m_type: ps[i].1,
            }),
    decreases ps.len(),
{
    if ps.len() > 0 {
        let k = ps.len() - 1;
        let ps0 = ps.drop_last();
        let as0 = args.drop_last();
        assert forall|i: int, j: int| 0 <= i < j < ps0.len() implies (#[trigger] ps0[i]).0 != (#[trigger] ps0[j]).0 by {
            assert(ps0[i] == ps[i] && ps0[j] == ps[j]);
        }
        lemma_bind_all_binds(c, ps0, as0);
        let b0 = bind_all(c, ps0, as0);
        let inst = SpecInstance { mutable: false, value: args.last(), m_type: ps.last().1 };
        lemma_find_after_declare(b0, ps.last().0, inst);
        let b = bind_all(c, ps, args);
        assert(b == declared(b0, ps.last().0, inst));
        assert forall|i: int| 0 <= i < ps.len() implies lookup(b, (#[trigger] ps[i]).0) == Some((c.slots.len() + i) as usize)
            && b.slots[c.slots.len() + i] == (SpecInstance { mutable: false, value: args[i], m_type: ps[i].1 }) by {
            if i < k {
                assert(ps0[i] == ps[i]);
                assert(as0[i] == args[i]);
                assert(ps[i].0 != ps[k].0);
            }
        }
    }
}

/// Law: a call of a function with parameters of distinct names binds each parameter, in a
/// new scope, to a constant of the parameter's type holding the matching argument; the
/// variables that existed before keep their values.
pub proof fn lemma_call_binds_arguments(st: InterpreterView, id: Seq<char>, args: Seq<SpecValue>)
    requires
        context_wf(st.ctx),
        st.functions.len() <= usize::MAX,
        call_outcome(st, id, args) matches Ok((CallPlan::Body { function: f, bound: true }, _)) && forall|i: int, j: int|
            0 <= i < j < st.functions[f as int].params.len() ==> (#[trigger] st.functions[f as int].params[i]).0
                != (#[trigger] st.functions[f as int].params[j]).0,
    ensures
        ({
            let st2 = call_outcome(st, id, args)->Ok_0.1;
            let f = call_outcome(st, id, args)->Ok_0.0->function;
            let ps = st.functions[f as int].params;
            &&& ps.len() == args.len()
            &&& forall|s: int| 0 <= s < st.ctx.slots.len() ==> #[trigger] st2.ctx.slots[s] == st.ctx.slots[s]
            &&& forall|i: int|
                0 <= i < ps.len() ==> lookup(st2.ctx, (#[trigger] ps[i]).0) == Some((st.ctx.slots.len() + i) as usize)
                    && st2.ctx.slots[st.ctx.slots.len() + i].value == args[i]
                    && !st2.ctx.slots[st.ctx.slots.len() + i].mutable
                    && st2.ctx.slots[st.ctx.slots.len() + i].m_type == ps[i].1
        }),
{
    assert(lookup(st.ctx, id) is Some);
    let s = lookup(st.ctx, id)->Some_0;
    assert(st.ctx.slots[s as int].value is Function);
    let f = st.ctx.slots[s as int].value->Function_0;
    let fu = call_outcome(st, id, args)->Ok_0.0->function;
    assert(fu as int == f as int);
    let ps = st.functions[f as int].params;
    assert(call_outcome(st, id, args)->Ok_0.1.ctx == bind_all(pushed(st.ctx), ps, args));
    let c = pushed(st.ctx);
    assert forall|i: int, k: Seq<char>| 0 <= i < c.scopes.len() && #[trigger] c.scopes[i].contains_key(k) implies (
    c.scopes[i][k] as int) < c.slots.len() by {
        if i < st.ctx.scopes.len() {
            assert(c.scopes[i] == st.ctx.scopes[i]);
        }
    }
    lemma_bind_all_binds(c, ps, args);
}

/// The program state after defining the struct type `id` with fields `fields`: each field's
/// type must be known. The type admits every value.
pub open spec fn struct_def_outcome(st: InterpreterView, id: Seq<char>, fields: Seq<(Seq<char>, Seq<char>)>) -> Result<
    InterpreterView,
    RuntimeError,
> {
    if exists|i: int| 0 <= i < fields.len() && !st.types.contains_key(#[trigger] fields[i].1) {
        Err(RuntimeError::UnknownType)
    } else {
        Ok(
            InterpreterView {
                struct_defs: st.struct_defs.insert(id, fields),
                types: st.types.insert(id, Type { validator: Validator::Any, attribute: Attr::Struct }),
                ..st
            },
        )
    }
}

/// The fields of a struct value whose declared fields are `fs` and whose arguments are
/// `args`, in order, and the type registry after naming the arguments' types: each argument
/// must have the declared type of its field, unless that is `Dynamic`.
pub open spec fn typed_fields(
    fs: Seq<(Seq<char>, Seq<char>)>,
    args: Seq<SpecValue>,
    slots: Seq<SpecInstance>,
    m: Map<Seq<char>, Type>,
) -> Result<(Seq<(Seq<char>, SpecInstance)>, Map<Seq<char>, Type>), RuntimeError>
    decreases fs.len(),
{
    if fs.len() == 0 || args.len() == 0 {
        Ok((Seq::empty(), m))
    } else {
        match typed_fields(fs.drop_last(), args.drop_last(), slots, m) {
            Ok((done, m1)) => match typename_after(args.last(), slots, m1, 1) {
                Ok((n, m2)) => if !m2.contains_key(n) {
                    Err(RuntimeError::UnknownType)
                } else if fs.last().1 != builtin_name(Builtin::Dynamic) && fs.last().1 != n {
                    Err(RuntimeError::TypeMismatch)
                } else {
                    Ok((done.push((fs.last().0, SpecInstance { mutable: true, value: args.last(), m_type: n })), m2))
                },
                Err(e) => Err(e),
            },
            Err(e) => Err(e),
        }
    }
}

/// Once typing a prefix of the fields fails, typing them all fails the same way.
proof fn lemma_typed_fields_error(
    fs: Seq<(Seq<char>, Seq<char>)>,
    args: Seq<SpecValue>,
    k: int,
    slots: Seq<SpecInstance>,
    m: Map<Seq<char>, Type>,
)
    requires
        0 <= k <= fs.len(),
        fs.len() == args.len(),
        typed_fields(fs.take(k), args.take(k), slots, m) is Err,
    ensures
        typed_fields(fs, args, slots, m) == typed_fields(fs.take(k), args.take(k), slots, m),
    decreases fs.len(),
{
    if k < fs.len() {
        assert(fs.drop_last().take(k) =~= fs.take(k));
        assert(args.drop_last().take(k) =~= args.take(k));
        lemma_typed_fields_error(fs.drop_last(), args.drop_last(), k, slots, m);
    } else {
        assert(fs.take(k) =~= fs);
        assert(args.take(k) =~= args);
    }
}

/// The program state after constructing a value of the struct type `id` from `args`, one per
/// declared field (see `typed_fields`), and the new value.
pub open spec fn struct_init_outcome(st: InterpreterView, id: Seq<char>, args: Seq<SpecValue>) -> Result<
    (SpecValue, InterpreterView),
    RuntimeError,
> {
    if !st.struct_defs.contains_key(id) {
        Err(RuntimeError::UnknownType)
    } else if st.struct_defs[id].len() != args.len() {
        Err(RuntimeError::ArgumentCount)
    } else {
        match typed_fields(st.struct_defs[id], args, st.ctx.slots, st.types) {
            Ok((fields, m)) => Ok((
                SpecValue::StructInstance { typename: id, fields: st.struct_values.len() },
                InterpreterView { struct_values: st.struct_values.push(fields), types: m, ..st },
            )),
            Err(e) => Err(e),
        }
    }
}

/// A copy of a parameter list.
fn copy_params(ps: &Vec<Parameter>) -> (r: Vec<Parameter>)
    ensures
        params_view(r@) == params_view(ps@),
{
    let mut out: Vec<Parameter> = Vec::new();
    let mut i: usize = 0;
    while i < ps.len()
        invariant
            i <= ps.len(),
            params_view(out@) == params_view(ps@).take(i as int),
        decreases ps.len() - i,
    {
        let p = Parameter { name: ps[i].name.clone(), m_type: ps[i].m_type.clone() };
        let ghost before = out@;
        out.push(p);
        proof {
            assert(params_view(out@) =~= params_view(before).push((p.name@, p.m_type@)));
            assert(params_view(ps@).take(i + 1) =~= params_view(ps@).take(i as int).push(
                (ps@[i as int].name@, ps@[i as int].m_type@),
            ));
        }
        i = i + 1;
    }
    proof {
        assert(params_view(ps@).take(ps.len() as int) =~= params_view(ps@));
    }
    out
}

impl Interpreter {
    /// Defines the struct type `id` with fields `fields` (see `struct_def_outcome`); on an
    /// error nothing changes.
    pub fn try_visit_struct_def(&mut self, id: &str, fields: &Vec<Parameter>) -> (r: Result<(), RuntimeError>)
        ensures
            match struct_def_outcome(old(self)@, id@, params_view(fields@)) {
                Ok(st) => r is Ok && final(self)@ == st,
                Err(e) => r == Err::<(), RuntimeError>(e) && final(self)@ == old(self)@,
            },
    {
        let ghost fs = params_view(fields@);
        let mut i: usize = 0;
        while i < fields.len()
            invariant
                i <= fields.len(),
                fs == params_view(fields@),
                forall|j: int| 0 <= j < i ==> self@.types.contains_key(#[trigger] fs[j].1),
            decreases fields.len() - i,
        {
            if !self.type_checker.types.contains_key(fields[i].m_type.as_str()) {
                assert(!self@.types.contains_key(fs[i as int].1));
                return Err(RuntimeError::UnknownType);
            }
            i = i + 1;
        }
        let ghost old_view = self@;
        let copied = copy_params(fields);
        self.struct_defs.insert(id.to_owned(), copied);
        self.type_checker.register_struct(id);
        proof {
            assert(self@.struct_defs =~= old_view.struct_defs.insert(id@, fs));
        }
        Ok(())
    }

    /// Defines the struct type `id` where `struct_def_outcome` allows it.
    pub fn visit_struct_def(&mut self, id: &str, fields: &Vec<Parameter>)
        requires
            struct_def_outcome(old(self)@, id@, params_view(fields@)) is Ok,
        ensures
            final(self)@ == struct_def_outcome(old(self)@, id@, params_view(fields@))->Ok_0,
    {
        self.try_visit_struct_def(id, fields).unwrap()
    }

    /// Constructs a value of the struct type `id` from `args` (see `struct_init_outcome`); on an
    /// error no variable, array, function or struct value changes.
    pub fn try_visit_struct_init(&mut self, id: &str, args: &Vec<Value>) -> (r: Result<Value, RuntimeError>)
        ensures
            match struct_init_outcome(old(self)@, id@, values_view(args@)) {
                Ok((v, st)) => r is Ok && r.unwrap()@ == v && final(self)@ == st,
                Err(e) => r == Err::<Value, RuntimeError>(e) && final(self)@.ctx == old(self)@.ctx
                    && final(self)@.arrays == old(self)@.arrays && final(self)@.functions == old(self)@.functions
                    && final(self)@.struct_defs == old(self)@.struct_defs
                    && final(self)@.struct_values == old(self)@.struct_values
                    && old(self)@.types.submap_of(final(self)@.types),
            },
    {
        let ghost avs = values_view(args@);
        proof {
            lemma_values_view_len(args@);
        }
        let ghost start = self@;
        let fields = match self.struct_defs.get(id) {
            Some(f) => copy_params(f),
            None => return Err(RuntimeError::UnknownType),
        };
        let ghost fs = params_view(fields@);
        assert(fs == start.struct_defs[id@]);
        if fields.len() != args.len() {
            return Err(RuntimeError::ArgumentCount);
        }
        let dynamic = builtin_name_string(Builtin::Dynamic);
        let mut out: Vec<(String, Instance)> = Vec::new();
        let mut i: usize = 0;
        proof {
            assert(fs.take(0) =~= Seq::<(Seq<char>, Seq<char>)>::empty());
            assert(avs.take(0) =~= Seq::<SpecValue>::empty());
            assert(fields_view(out@) =~= Seq::<(Seq<char>, SpecInstance)>::empty());
        }
        while i < args.len()
            invariant
                i <= args.len(),
                fields.len() == args.len(),
                fs == params_view(fields@),
                avs == values_view(args@),
                avs.len() == args.len(),
                dynamic@ == builtin_name(Builtin::Dynamic),
                start == old(self)@,
                fs == start.struct_defs[id@],
                start.struct_defs.contains_key(id@),
                self@.ctx == start.ctx,
                self@.arrays == start.arrays,
                self@.functions == start.functions,
                self@.struct_defs == start.struct_defs,
                self@.struct_values == start.struct_values,
                start.types.submap_of(self@.types),
                typed_fields(fs.take(i as int), avs.take(i as int), start.ctx.slots, start.types) == Ok::<
                    (Seq<(Seq<char>, SpecInstance)>, Map<Seq<char>, Type>),
                    RuntimeError,
                >((fields_view(out@), self@.types)),
            decreases args.len() - i,
        {
            proof {
                lemma_values_view_index(args@, i as int);
                assert(fs.take(i + 1).drop_last() =~= fs.take(i as int));
                assert(avs.take(i + 1).drop_last() =~= avs.take(i as int));
                assert(fs.take(i + 1).last() == fs[i as int]);
                assert(avs.take(i + 1).last() == avs[i as int]);
            }
            let ghost old_out = out@;
            let (name, _) = match self.type_checker.try_from_value(&self.context, &args[i]) {
                Ok(x) => x,
                Err(e) => {
                    proof {
                        assert(typed_fields(fs.take(i + 1), avs.take(i + 1), start.ctx.slots, start.types)
                            == Err::<(Seq<(Seq<char>, SpecInstance)>, Map<Seq<char>, Type>), RuntimeError>(e));
                        lemma_typed_fields_error(fs, avs, i + 1, start.ctx.slots, start.types);
                    }
                    return Err(e);
                },
            };
            let expected = fields[i].m_type.as_str();
            if !crate::standard_functions::str_equal(expected, dynamic.as_str())
                && !crate::standard_functions::str_equal(expected, name.as_str()) {
                proof {
                    assert(typed_fields(fs.take(i + 1), avs.take(i + 1), start.ctx.slots, start.types)
                        == Err::<(Seq<(Seq<char>, SpecInstance)>, Map<Seq<char>, Type>), RuntimeError>(
                        RuntimeError::TypeMismatch,
                    ));
                    lemma_typed_fields_error(fs, avs, i + 1, start.ctx.slots, start.types);
                }
                return Err(RuntimeError::TypeMismatch);
            }
            let var = Instance::new(true, args[i].duplicate(), name);
            let entry = (fields[i].name.clone(), var);
            out.push(entry);
            proof {
                assert(fields_view(out@) =~= fields_view(old_out).push((entry.0@, entry.1@)));
            }
            i = i + 1;
        }
        proof {
            assert(fs.take(args.len() as int) =~= fs);
            assert(avs.take(args.len() as int) =~= avs);
        }
        let slot = self.struct_values.len();
        let ghost before = self@;
        self.struct_values.push(out);
        proof {
            assert(self@.struct_values =~= before.struct_values.push(fields_view(out@)));
        }
        Ok(Value::StructInstance { typename: id.to_owned(), fields: slot })
    }

    /// Constructs a value of the struct type `id` from `args`, where `struct_init_outcome`
    /// allows it.
    pub fn visit_struct_init(&mut self, id: &str, args: &Vec<Value>) -> (r: Value)
        requires
            struct_init_outcome(old(self)@, id@, values_view(args@)) is Ok,
        ensures
            r@ == struct_init_outcome(old(self)@, id@, values_view(args@))->Ok_0.0,
            final(self)@ == struct_init_outcome(old(self)@, id@, values_view(args@))->Ok_0.1,
    {
        self.try_visit_struct_init(id, args).unwrap()
    }
}

/// The last position in `fs` of a field named `name`.
pub open spec fn find_field(fs: Seq<(Seq<char>, SpecInstance)>, name: Seq<char>) -> Option<int>
    decreases fs.len(),
{
    if fs.len() == 0 {
        None
    } else if fs.last().0 == name {
        Some(fs.len() - 1)
    } else {
        find_field(fs.drop_last(), name)
    }
}

/// The value of the field `field` of the struct value that variable `id` holds.
pub open spec fn struct_field(st: InterpreterView, id: Seq<char>, field: Seq<char>) -> Result<SpecValue, RuntimeError> {
    match lookup(st.ctx, id) {
        None => Err(RuntimeError::UnknownVariable),
        Some(s) => match st.ctx.slots[s as int].value {
            SpecValue::StructInstance { fields: f, .. } => if f >= st.struct_values.len() {
                Err(RuntimeError::DanglingReference)
            } else {
                match find_field(st.struct_values[f as int], field) {
                    Some(j) => Ok(st.struct_values[f as int][j].1.value),
                    None => Err(RuntimeError::UnknownVariable),
                }
            },
            _ => Err(RuntimeError::ExpectedStruct),
        },
    }
}

impl Interpreter {
    /// The value of the field `field` of the struct value that variable `id` holds (see
    /// `struct_field`); of two fields of that name, the later one.
    pub fn struct_field(&self, id: &str, field: &str) -> (r: Result<Value, RuntimeError>)
        ensures
            match struct_field(self@, id@, field@) {
                Ok(v) => r is Ok && r.unwrap()@ == v,
                Err(e) => r == Err::<Value, RuntimeError>(e),
            },
    {
        let s = match self.context.find_variable(id) {
            Some(s) => s,
            None => return Err(RuntimeError::UnknownVariable),
        };
        let f = match &self.context.instance(s).value {
            Value::StructInstance { fields, .. } => *fields,
            _ => return Err(RuntimeError::ExpectedStruct),
        };
        if f >= self.struct_values.len() {
            return Err(RuntimeError::DanglingReference);
        }
        let fields = &self.struct_values[f];
        let ghost fv = fields_view(fields@);
        assert(fv == self@.struct_values[f as int]);
        let mut n = fields.len();
        assert(fv.take(n as int) =~= fv);
        while n > 0
            invariant
                n <= fields.len(),
                fv == fields_view(fields@),
                fv.len() == fields.len(),
                lookup(self@.ctx, id@) == Some(s),
                self@.ctx.slots[s as int].value matches SpecValue::StructInstance { fields: g, .. } && g == f,
                (f as int) < self@.struct_values.len(),
                fv == self@.struct_values[f as int],
                find_field(fv, field@) == find_field(fv.take(n as int), field@),
            decreases n,
        {
            proof {
                assert(fv.take(n as int).drop_last() =~= fv.take(n - 1));
                assert(fv.take(n as int).last() == (fields@[n - 1].0@, fields@[n - 1].1@));
            }
            if crate::standard_functions::str_equal(fields[n - 1].0.as_str(), field) {
                return Ok(fields[n - 1].1.value.duplicate());
            }
            n = n - 1;
        }
        Err(RuntimeError::UnknownVariable)
    }
}


/// Typed fields hold the arguments in order, under the declared field names.
proof fn lemma_typed_fields_hold(
    fs: Seq<(Seq<char>, Seq<char>)>,
    args: Seq<SpecValue>,
    slots: Seq<SpecInstance>,
    m: Map<Seq<char>, Type>,
)
    requires
        fs.len() == args.len(),
    ensures
        typed_fields(fs, args, slots, m) matches Ok((done, _)) ==> {
            &&& done.len() == fs.len()
            &&& forall|k: int| 0 <= k < fs.len() ==> (#[trigger] done[k]).0 == fs[k].0 && done[k].1.value == args[k]
        },
    decreases fs.len(),
{
    if fs.len() > 0 {
        lemma_typed_fields_hold(fs.drop_last(), args.drop_last(), slots, m);
    }
}

/// Law: a struct value just constructed holds each argument, in order, in the field that
/// the struct type declares at that position.
pub proof fn lemma_struct_holds_arguments(st: InterpreterView, id: Seq<char>, args: Seq<SpecValue>)
    requires
        struct_init_outcome(st, id, args) is Ok,
    ensures
        ({
            let (v, st2) = struct_init_outcome(st, id, args)->Ok_0;
            let fields = st2.struct_values[st.struct_values.len() as int];
            &&& v == SpecValue::StructInstance { typename: id, fields: st.struct_values.len() }
            &&& fields.len() == args.len()
            &&& forall|k: int|
                0 <= k < args.len() ==> (#[trigger] fields[k]).0 == st.struct_defs[id][k].0 && fields[k].1.value
                    == args[k]
        }),
{
    lemma_typed_fields_hold(st.struct_defs[id], args, st.ctx.slots, st.types);
}

} // verus!
