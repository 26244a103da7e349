//! The values a running program computes with, and the variables that hold them.
use vstd::prelude::*;
use crate::ast::{Node, SpecNode};

verus! {

/// A value of the language.
///
/// Arrays and variables are shared: a value refers to them by their slot in the interpreter's
/// store, so that every holder of the same array sees a change made through any of them.
/// A double is held as its IEEE-754 bit pattern; arithmetic on doubles happens outside this
/// crate.
#[derive(Debug)]
pub enum Value {
    Nothing(),
    Int(i32),
    Bool(bool),
    Double(u64),
    String(String),
    /// A function, by its slot among the interpreter's functions.
    Function(usize),
    /// What a `return` statement hands up, with its value if it has one.
    Return(Option<Box<Value>>),
    /// A variable, by its slot in the interpreter's store.
    Reference(usize),
    /// An array: whether it may be changed, and its slot among the interpreter's arrays.
    Array(bool, usize),
    Tuple(Vec<Value>),
    /// A value of a struct type: the type's name and the slot of its fields among the
    /// interpreter's struct values.
    StructInstance { typename: String, fields: usize },
}

/// The mathematical value of a `Value`.
pub enum SpecValue {
    Nothing,
    Int(i32),
    Bool(bool),
    Double(u64),
    String(Seq<char>),
    Function(nat),
    Return(Option<Box<SpecValue>>),
    Reference(nat),
    Array(bool, nat),
    Tuple(Seq<SpecValue>),
    StructInstance { typename: Seq<char>, fields: nat },
}

/// The view of a value.
pub open spec fn value_view(v: Value) -> SpecValue
    decreases v, 0nat,
{
    match v {
        Value::Nothing() => SpecValue::Nothing,
        Value::Int(i) => SpecValue::Int(i),
        Value::Bool(b) => SpecValue::Bool(b),
        Value::Double(d) => SpecValue::Double(d),
        Value::String(s) => SpecValue::String(s@),
        Value::Function(f) => SpecValue::Function(f as nat),
        Value::Return(r) => SpecValue::Return(
            match r {
                Some(b) => Some(Box::new(value_view(*b))),
                None => None,
            },
        ),
        Value::Reference(r) => SpecValue::Reference(r as nat),
        Value::Array(m, a) => SpecValue::Array(m, a as nat),
        Value::Tuple(vs) => SpecValue::Tuple(values_view(vs@)),
        Value::StructInstance { typename, fields } => SpecValue::StructInstance {
            typename: typename@,
            fields: fields as nat,
        },
    }
}

/// The views of a sequence of values.
pub open spec fn values_view(s: Seq<Value>) -> Seq<SpecValue>
    decreases s, s.len(),
{
    if s.len() == 0 {
        Seq::empty()
    } else {
        values_view(s.drop_last()).push(value_view(s.last()))
    }
}

impl View for Value {
    type V = SpecValue;

    open spec fn view(&self) -> SpecValue {
        value_view(*self)
    }
}

/// The views of a sequence of values have its length.
pub proof fn lemma_values_view_len(s: Seq<Value>)
    ensures
        values_view(s).len() == s.len(),
    decreases s.len(),
{
    if s.len() > 0 {
        lemma_values_view_len(s.drop_last());
    }
}

/// The view of each value of a sequence is that value's view.
pub proof fn lemma_values_view_index(s: Seq<Value>, i: int)
    requires
        0 <= i < s.len(),
    ensures
        values_view(s).len() == s.len(),
        values_view(s)[i] == s[i]@,
    decreases s.len(),
{
    lemma_values_view_len(s);
    if i < s.len() - 1 {
        lemma_values_view_index(s.drop_last(), i);
    }
}

/// Two sequences of values with the same views element by element have the same views.
pub proof fn lemma_values_view_ext(a: Seq<Value>, b: Seq<Value>)
    requires
        a.len() == b.len(),
        forall|i: int| 0 <= i < a.len() ==> (#[trigger] a[i])@ == b[i]@,
    ensures
        values_view(a) == values_view(b),
    decreases a.len(),
{
    if a.len() > 0 {
        lemma_values_view_ext(a.drop_last(), b.drop_last());
    }
}

impl Value {
    /// A copy of this value with the same view; shared arrays, variables and functions are
    /// copied as references to the same slot.
    pub fn duplicate(&self) -> (r: Value)
        ensures
            r@ == self@,
        decreases *self,
    {
        match self {
            Value::Nothing() => Value::Nothing(),
            Value::Int(i) => Value::Int(*i),
            Value::Bool(b) => Value::Bool(*b),
            Value::Double(d) => Value::Double(*d),
            Value::String(s) => Value::String(s.clone()),
            Value::Function(f) => Value::Function(*f),
            Value::Return(r) => match r {
                Some(b) => {
                    let inner = (**b).duplicate();
                    Value::Return(Some(Box::new(inner)))
                },
                None => Value::Return(None),
            },
            Value::Reference(r) => Value::Reference(*r),
            Value::Array(m, a) => Value::Array(*m, *a),
            Value::Tuple(vs) => {
                let mut out: Vec<Value> = Vec::new();
                let mut i: usize = 0;
                while i < vs.len()
                    invariant
                        *self == Value::Tuple(*vs),
                        i <= vs.len(),
                        out@.len() == i,
                        forall|j: int| 0 <= j < i ==> (#[trigger] out@[j])@ == vs@[j]@,
                    decreases vs.len() - i,
                {
                    proof {
                        assert(decreases_to!(*self => (*self)->Tuple_0));
                    }
                    let v = vs[i].duplicate();
                    out.push(v);
                    i = i + 1;
                }
                proof {
                    lemma_values_view_ext(out@, vs@);
                }
                Value::Tuple(out)
            },
            Value::StructInstance { typename, fields } => Value::StructInstance {
                typename: typename.clone(),
                fields: *fields,
            },
        }
    }

    /// The boolean this value holds, if it is a boolean.
    pub fn as_bool(&self) -> (r: Option<bool>)
        ensures
            r == (match self@ {
                SpecValue::Bool(b) => Some(b),
                _ => None,
            }),
    {
        match self {
            Value::Bool(b) => Some(*b),
            _ => None,
        }
    }

    /// The text this value holds, if it is a string.
    pub fn as_string(&self) -> (r: Option<&String>)
        ensures
            match self@ {
                SpecValue::String(s) => r is Some && r.unwrap()@ == s,
                _ => r is None,
            },
    {
        match self {
            Value::String(s) => Some(s),
            _ => None,
        }
    }
}

/// Why a running program stops.
#[derive(Debug, Clone, Copy, PartialEq, Eq, Structural)]
pub enum RuntimeError {
    /// The value handed up by a `return` has no type.
    ReturnHasNoType,
    /// A reference names a slot that the store does not hold.
    DanglingReference,
    /// A reference leads to a variable that itself holds a reference, a tuple or a return.
    IndirectReference,
    /// A type name that the type checker does not know.
    UnknownType,
    /// A name that no variable in scope has.
    UnknownVariable,
    /// A name that a variable of the current scopes already has.
    Redefinition,
    /// A value that the type of its variable does not admit.
    TypeMismatch,
    /// An assignment to a variable that may not be assigned.
    AssignmentToConstant,
    /// A reference was expected.
    ExpectedReference,
    /// An operator that the operand types do not support.
    InvalidOperator,
    /// An integer operation whose result does not fit in 32 bits.
    IntegerOverflow,
    /// An integer division by zero.
    DivisionByZero,
    /// An array was expected.
    ExpectedArray,
    /// An index past the end of an array.
    IndexOutOfBounds,
    /// A change to an array that may not be changed.
    ImmutableArray,
    /// An array literal with more elements than its declared length.
    ArrayTooLong,
    /// A builtin called with the wrong number of arguments.
    ArgumentCount,
    /// A builtin called with an argument of the wrong kind.
    ArgumentKind,
    /// An assertion of the program failed.
    AssertionFailed,
    /// A function was expected.
    ExpectedFunction,
    /// A boolean condition was expected.
    ExpectedBoolean,
    /// Pop from an empty array.
    EmptyArray,
    /// A number was expected.
    ExpectedNumber,
    /// A struct value was expected.
    ExpectedStruct,
    /// The store has no room left.
    StoreFull,
    /// A call of a name that is neither a variable nor a builtin function.
    UnknownFunction,
}

/// A variable: whether it may be assigned, its value and the name of its type.
#[derive(Debug)]
pub struct Instance {
    pub mutable: bool,
    pub value: Value,
    pub m_type: String,
}

/// The mathematical value of a variable.
pub struct SpecInstance {
    pub mutable: bool,
    pub value: SpecValue,
    pub m_type: Seq<char>,
}

impl View for Instance {
    type V = SpecInstance;

    open spec fn view(&self) -> SpecInstance {
        SpecInstance { mutable: self.mutable, value: self.value@, m_type: self.m_type@ }
    }
}

impl Instance {
    /// A variable with the given mutability, value and type name.
    pub fn new(mutable: bool, value: Value, m_type: String) -> (r: Self)
        ensures
            r@ == (SpecInstance { mutable, value: value@, m_type: m_type@ }),
    {
        Instance { mutable, value, m_type }
    }

    /// Replaces the variable's value by a copy of `value`.
    pub fn set_value(&mut self, value: &Value)
        ensures
            final(self)@ == (SpecInstance { value: value@, ..old(self)@ }),
    {
        self.value = value.duplicate();
    }

    /// A copy of this variable with the same view.
    pub fn duplicate(&self) -> (r: Instance)
        ensures
            r@ == self@,
    {
        Instance { mutable: self.mutable, value: self.value.duplicate(), m_type: self.m_type.clone() }
    }
}

/// A parameter of a function: its name and the name of its type.
#[derive(Debug, Clone)]
pub struct Parameter {
    pub name: String,
    pub m_type: String,
}

/// A function of the language.
#[derive(Debug)]
pub struct Function {
    pub name: String,
    pub params: Vec<Parameter>,
    pub body: Box<Node>,
    pub return_type: String,
    pub mutable: bool,
}

/// The mathematical value of a function: its name, its parameters as pairs of a name and
/// a type name, its body, its return type name and whether it may be reassigned.
pub struct SpecFunction {
    pub name: Seq<char>,
    pub params: Seq<(Seq<char>, Seq<char>)>,
    pub body: SpecNode,
    pub return_type: Seq<char>,
    pub mutable: bool,
}

/// The view of a parameter list.
pub open spec fn params_view(ps: Seq<Parameter>) -> Seq<(Seq<char>, Seq<char>)> {
    ps.map_values(|p: Parameter| (p.name@, p.m_type@))
}

impl View for Function {
    type V = SpecFunction;

    open spec fn view(&self) -> SpecFunction {
        SpecFunction {
            name: self.name@,
            params: params_view(self.params@),
            body: (*self.body)@,
            return_type: self.return_type@,
            mutable: self.mutable,
        }
    }
}

} // verus!
