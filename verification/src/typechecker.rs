//! The types of the language, the values each admits, and the registry that names them.
use vstd::prelude::*;
use vstd::hash_map::StringHashMap;
use vstd::string::StringExecFns;
use crate::types::{Value, SpecValue, Instance, SpecInstance, RuntimeError, values_view, lemma_values_view_index};
use crate::context::Context;

verus! {

broadcast use vstd::map_lib::lemma_submap_of_trans;

/// What kind of thing a type describes.
#[derive(Debug, Clone, Copy, PartialEq, Eq, Structural)]
pub enum Attr {
    Struct,
    Value,
    Array,
    Function,
}

/// Which values a type admits.
#[derive(Debug, Clone, Copy, PartialEq, Eq, Structural)]
pub enum Validator {
    NothingOnly,
    IntOnly,
    DoubleOnly,
    Any,
    StringOnly,
    BoolOnly,
    ArrayOnly,
    FunctionOnly,
    TupleOnly,
}

/// A type: which values it admits and what kind of thing it describes.
#[derive(Debug, Clone, Copy, PartialEq, Eq, Structural)]
pub struct Type {
    pub validator: Validator,
    pub attribute: Attr,
}

/// Whether validator `v` admits the value `x`.
pub open spec fn admits(v: Validator, x: SpecValue) -> bool {
    match v {
        Validator::NothingOnly => x is Nothing,
        Validator::IntOnly => x is Int,
        Validator::DoubleOnly => x is Double,
        Validator::Any => true,
        Validator::StringOnly => x is String,
        Validator::BoolOnly => x is Bool,
        Validator::ArrayOnly => x is Array,
        Validator::FunctionOnly => x is Function,
        Validator::TupleOnly => x is Tuple,
    }
}

impl Type {
    /// Whether this type admits `val`.
    pub fn validate(&self, val: &Value) -> (b: bool)
        ensures
            b == admits(self.validator, val@),
    {
        match self.validator {
            Validator::NothingOnly => match val {
                Value::Nothing() => true,
                _ => false,
            },
            Validator::IntOnly => match val {
                Value::Int(_) => true,
                _ => false,
            },
            Validator::DoubleOnly => match val {
                Value::Double(_) => true,
                _ => false,
            },
            Validator::Any => true,
            Validator::StringOnly => match val {
                Value::String(_) => true,
                _ => false,
            },
            Validator::BoolOnly => match val {
                Value::Bool(_) => true,
                _ => false,
            },
            Validator::ArrayOnly => match val {
                Value::Array(..) => true,
                _ => false,
            },
            Validator::FunctionOnly => match val {
                Value::Function(_) => true,
                _ => false,
            },
            Validator::TupleOnly => match val {
                Value::Tuple(_) => true,
                _ => false,
            },
        }
    }
}

/// The types every type checker starts with.
#[derive(Debug, Clone, Copy, PartialEq, Eq, Structural)]
pub enum Builtin {
    Nothing,
    Int,
    Double,
    Dynamic,
    Str,
    Bool,
    Array,
    Fn,
}

/// The name of a builtin type.
pub open spec fn builtin_name(b: Builtin) -> Seq<char> {
    match b {
        Builtin::Nothing => seq!['N', 'o', 'n', 'e'],
        Builtin::Int => seq!['I', 'n', 't'],
        Builtin::Double => seq!['D', 'o', 'u', 'b', 'l', 'e'],
        Builtin::Dynamic => seq!['D', 'y', 'n', 'a', 'm', 'i', 'c'],
        Builtin::Str => seq!['S', 't', 'r', 'i', 'n', 'g'],
        Builtin::Bool => seq!['B', 'o', 'o', 'l'],
        Builtin::Array => seq!['A', 'r', 'r', 'a', 'y'],
        Builtin::Fn => seq!['F', 'n'],
    }
}

/// A builtin type.
pub open spec fn builtin_type(b: Builtin) -> Type {
    match b {
        Builtin::Nothing => Type { validator: Validator::NothingOnly, attribute: Attr::Value },
        Builtin::Int => Type { validator: Validator::IntOnly, attribute: Attr::Value },
        Builtin::Double => Type { validator: Validator::DoubleOnly, attribute: Attr::Value },
        Builtin::Dynamic => Type { validator: Validator::Any, attribute: Attr::Value },
        Builtin::Str => Type { validator: Validator::StringOnly, attribute: Attr::Value },
        Builtin::Bool => Type { validator: Validator::BoolOnly, attribute: Attr::Value },
        Builtin::Array => Type { validator: Validator::ArrayOnly, attribute: Attr::Array },
        Builtin::Fn => Type { validator: Validator::FunctionOnly, attribute: Attr::Function },
    }
}

/// The type registered for a tuple's name.
pub open spec fn tuple_type() -> Type {
    Type { validator: Validator::TupleOnly, attribute: Attr::Value }
}

/// The registry a type checker starts with: each builtin type under its name.
pub open spec fn builtin_types() -> Map<Seq<char>, Type> {
    map![
        builtin_name(Builtin::Nothing) => builtin_type(Builtin::Nothing),
        builtin_name(Builtin::Int) => builtin_type(Builtin::Int),
        builtin_name(Builtin::Double) => builtin_type(Builtin::Double),
        builtin_name(Builtin::Dynamic) => builtin_type(Builtin::Dynamic),
        builtin_name(Builtin::Str) => builtin_type(Builtin::Str),
        builtin_name(Builtin::Bool) => builtin_type(Builtin::Bool),
        builtin_name(Builtin::Array) => builtin_type(Builtin::Array),
        builtin_name(Builtin::Fn) => builtin_type(Builtin::Fn)
    ]
}

/// The name of a builtin type.
pub fn builtin_name_string(b: Builtin) -> (r: String)
    ensures
        r@ == builtin_name(b),
{
    proof {
        reveal_strlit("None");
        reveal_strlit("Int");
        reveal_strlit("Double");
        reveal_strlit("Dynamic");
        reveal_strlit("String");
        reveal_strlit("Bool");
        reveal_strlit("Array");
        reveal_strlit("Fn");
    }
    let r = match b {
        Builtin::Nothing => "None".to_owned(),
        Builtin::Int => "Int".to_owned(),
        Builtin::Double => "Double".to_owned(),
        Builtin::Dynamic => "Dynamic".to_owned(),
        Builtin::Str => "String".to_owned(),
        Builtin::Bool => "Bool".to_owned(),
        Builtin::Array => "Array".to_owned(),
        Builtin::Fn => "Fn".to_owned(),
    };
    assert(r@ =~= builtin_name(b));
    r
}

/// A builtin type.
fn builtin_type_value(b: Builtin) -> (t: Type)
    ensures
        t == builtin_type(b),
{
    match b {
        Builtin::Nothing => Type { validator: Validator::NothingOnly, attribute: Attr::Value },
        Builtin::Int => Type { validator: Validator::IntOnly, attribute: Attr::Value },
        Builtin::Double => Type { validator: Validator::DoubleOnly, attribute: Attr::Value },
        Builtin::Dynamic => Type { validator: Validator::Any, attribute: Attr::Value },
        Builtin::Str => Type { validator: Validator::StringOnly, attribute: Attr::Value },
        Builtin::Bool => Type { validator: Validator::BoolOnly, attribute: Attr::Value },
        Builtin::Array => Type { validator: Validator::ArrayOnly, attribute: Attr::Array },
        Builtin::Fn => Type { validator: Validator::FunctionOnly, attribute: Attr::Function },
    }
}

/// The builtin type of a value that is neither a reference, a tuple, a struct value nor a
/// return.
pub open spec fn builtin_of(v: SpecValue) -> Builtin {
    match v {
        SpecValue::Nothing => Builtin::Nothing,
        SpecValue::Int(_) => Builtin::Int,
        SpecValue::Double(_) => Builtin::Double,
        SpecValue::String(_) => Builtin::Str,
        SpecValue::Bool(_) => Builtin::Bool,
        SpecValue::Function(_) => Builtin::Fn,
        _ => Builtin::Array,
    }
}

/// The name of the type of `v`, and the registry `m` after naming it registers the type of
/// every tuple it meets that `m` lacks. A reference is followed to the variable it names,
/// `fuel` times at most along any path.
pub open spec fn typename_after(
    v: SpecValue,
    slots: Seq<SpecInstance>,
    m: Map<Seq<char>, Type>,
    fuel: int,
) -> Result<(Seq<char>, Map<Seq<char>, Type>), RuntimeError>
    decreases fuel, v, 0int,
{
    match v {
        SpecValue::Return(_) => Err(RuntimeError::ReturnHasNoType),
        SpecValue::Reference(r) => if fuel <= 0 {
            Err(RuntimeError::IndirectReference)
        } else if r >= slots.len() {
            Err(RuntimeError::DanglingReference)
        } else {
            typename_after(slots[r as int].value, slots, m, fuel - 1)
        },
        SpecValue::Tuple(vs) => tuple_typename_after(vs, slots, m, fuel),
        SpecValue::StructInstance { typename, .. } => Ok((typename, m)),
        _ => Ok((builtin_name(builtin_of(v)), m)),
    }
}

/// The name `(` elements `)` of a tuple's type, registered if it was not; the elements are
/// separated, and preceded, by `,` unless there is exactly one.
pub open spec fn tuple_typename_after(
    vs: Seq<SpecValue>,
    slots: Seq<SpecInstance>,
    m: Map<Seq<char>, Type>,
    fuel: int,
) -> Result<(Seq<char>, Map<Seq<char>, Type>), RuntimeError>
    decreases fuel, vs, 2int,
{
    match elements_after(vs, slots, m, fuel, vs.len() != 1) {
        Ok((text, m1)) => {
            let name = seq!['('] + text + seq![')'];
            Ok((name, if m1.contains_key(name) { m1 } else { m1.insert(name, tuple_type()) }))
        },
        Err(e) => Err(e),
    }
}

/// The type names of the elements `vs`, each preceded by `,` when `sep`, and the registry
/// after naming them; an element whose type is not registered stops it.
pub open spec fn elements_after(
    vs: Seq<SpecValue>,
    slots: Seq<SpecInstance>,
    m: Map<Seq<char>, Type>,
    fuel: int,
    sep: bool,
) -> Result<(Seq<char>, Map<Seq<char>, Type>), RuntimeError>
    decreases fuel, vs, 1int,
{
    if vs.len() == 0 {
        Ok((Seq::empty(), m))
    } else {
        match elements_after(vs.drop_last(), slots, m, fuel, sep) {
            Ok((text, m1)) => match typename_after(vs.last(), slots, m1, fuel) {
                Ok((n, m2)) => if m2.contains_key(n) {
                    Ok((text + (if sep { seq![','] } else { Seq::empty() }) + n, m2))
                } else {
                    Err(RuntimeError::UnknownType)
                },
                Err(e) => Err(e),
            },
            Err(e) => Err(e),
        }
    }
}

/// The registry of the types a program can name.
pub struct TypeChecker {
    pub types: StringHashMap<Type>,
}

impl View for TypeChecker {
    type V = Map<Seq<char>, Type>;

    open spec fn view(&self) -> Map<Seq<char>, Type> {
        self.types@
    }
}

impl TypeChecker {
    /// A type checker that knows the builtin types.
    pub fn new() -> (r: Self)
        ensures
            r@ == builtin_types(),
    {
        let mut types: StringHashMap<Type> = StringHashMap::new();
        types.insert(builtin_name_string(Builtin::Nothing), builtin_type_value(Builtin::Nothing));
        types.insert(builtin_name_string(Builtin::Int), builtin_type_value(Builtin::Int));
        types.insert(builtin_name_string(Builtin::Double), builtin_type_value(Builtin::Double));
        types.insert(builtin_name_string(Builtin::Dynamic), builtin_type_value(Builtin::Dynamic));
        types.insert(builtin_name_string(Builtin::Str), builtin_type_value(Builtin::Str));
        types.insert(builtin_name_string(Builtin::Bool), builtin_type_value(Builtin::Bool));
        types.insert(builtin_name_string(Builtin::Array), builtin_type_value(Builtin::Array));
        types.insert(builtin_name_string(Builtin::Fn), builtin_type_value(Builtin::Fn));
        let r = TypeChecker { types };
        assert(r@ =~= builtin_types());
        r
    }

    /// The type registered under `name`.
    pub fn get(&self, name: &str) -> (r: Option<Type>)
        ensures
            r == (if self@.contains_key(name@) {
                Some(self@[name@])
            } else {
                None
            }),
    {
        match self.types.get(name) {
            Some(t) => Some(*t),
            None => None,
        }
    }

    /// Whether the type of variable `val` admits its value; `false` when its type is unknown.
    pub fn validate(&self, val: &Instance) -> (b: bool)
        ensures
            b == (self@.contains_key(val@.m_type) && admits(self@[val@.m_type].validator, val@.value)),
    {
        match self.types.get(val.m_type.as_str()) {
            Some(t) => t.validate(&val.value),
            None => false,
        }
    }

    /// The name of the type of `arg`, registering the tuple types it meets (see
    /// `typename_after`); a reference is followed once.
    pub fn try_get_typename(&mut self, ctx: &Context, arg: &Value) -> (r: Result<String, RuntimeError>)
        ensures
            match typename_after(arg@, ctx@.slots, old(self)@, 1) {
                Ok((n, m)) => r is Ok && r.unwrap()@ == n && final(self)@ == m,
                Err(e) => r == Err::<String, RuntimeError>(e),
            },
            old(self)@.submap_of(final(self)@),
    {
        self.typename_with(ctx, arg, 1)
    }

    /// The name of the type of `arg`, a value that has one (see `try_get_typename`).
    pub fn get_typename(&mut self, ctx: &Context, arg: &Value) -> (r: String)
        requires
            typename_after(arg@, ctx@.slots, old(self)@, 1) is Ok,
        ensures
            r@ == typename_after(arg@, ctx@.slots, old(self)@, 1)->Ok_0.0,
            final(self)@ == typename_after(arg@, ctx@.slots, old(self)@, 1)->Ok_0.1,
    {
        self.try_get_typename(ctx, arg).unwrap()
    }

    /// The name of the type of `arg`, following references `fuel` times at most.
    fn typename_with(&mut self, ctx: &Context, arg: &Value, fuel: u8) -> (r: Result<String, RuntimeError>)
        requires
            fuel <= 1,
        ensures
            match typename_after(arg@, ctx@.slots, old(self)@, fuel as int) {
                Ok((n, m)) => r is Ok && r.unwrap()@ == n && final(self)@ == m,
                Err(e) => r == Err::<String, RuntimeError>(e),
            },
            old(self)@.submap_of(final(self)@),
        decreases fuel, *arg, 0int,
    {
        match arg {
            Value::Return(_) => Err(RuntimeError::ReturnHasNoType),
            Value::Reference(s) => {
                if fuel == 0 {
                    Err(RuntimeError::IndirectReference)
                } else if *s >= ctx.slot_count() {
                    Err(RuntimeError::DanglingReference)
                } else {
                    let inst = ctx.instance(*s);
                    self.typename_with(ctx, &inst.value, fuel - 1)
                }
            },
            Value::Tuple(values) => {
                proof {
                    assert(decreases_to!(*arg => (*arg)->Tuple_0));
                }
                self.tuple_typename_with(ctx, values, fuel)
            },
            Value::Nothing() => Ok(builtin_name_string(Builtin::Nothing)),
            Value::Int(_) => Ok(builtin_name_string(Builtin::Int)),
            Value::Double(_) => Ok(builtin_name_string(Builtin::Double)),
            Value::String(_) => Ok(builtin_name_string(Builtin::Str)),
            Value::Bool(_) => Ok(builtin_name_string(Builtin::Bool)),
            Value::Function(_) => Ok(builtin_name_string(Builtin::Fn)),
            Value::Array(..) => Ok(builtin_name_string(Builtin::Array)),
            Value::StructInstance { typename, .. } => Ok(typename.clone()),
        }
    }

    /// The name of the type of a tuple of `values`, registering it if it is not (see
    /// `tuple_typename_after`).
    pub fn try_get_tuple_typename(&mut self, ctx: &Context, values: &Vec<Value>) -> (r: Result<String, RuntimeError>)
        ensures
            match tuple_typename_after(values_view(values@), ctx@.slots, old(self)@, 1) {
                Ok((n, m)) => r is Ok && r.unwrap()@ == n && final(self)@ == m,
                Err(e) => r == Err::<String, RuntimeError>(e),
            },
            old(self)@.submap_of(final(self)@),
    {
        self.tuple_typename_with(ctx, values, 1)
    }

    /// The name of the type of a tuple of `values` whose elements have types (see
    /// `try_get_tuple_typename`).
    pub fn get_tuple_typename(&mut self, ctx: &Context, values: &Vec<Value>) -> (r: String)
        requires
            tuple_typename_after(values_view(values@), ctx@.slots, old(self)@, 1) is Ok,
        ensures
            r@ == tuple_typename_after(values_view(values@), ctx@.slots, old(self)@, 1)->Ok_0.0,
            final(self)@ == tuple_typename_after(values_view(values@), ctx@.slots, old(self)@, 1)->Ok_0.1,
    {
        self.try_get_tuple_typename(ctx, values).unwrap()
    }

    /// The name of the type of a tuple of `values`, following references `fuel` times at most.
    #[verifier::spinoff_prover]
    fn tuple_typename_with(&mut self, ctx: &Context, values: &Vec<Value>, fuel: u8) -> (r: Result<String, RuntimeError>)
        requires
            fuel <= 1,
        ensures
            match tuple_typename_after(values_view(values@), ctx@.slots, old(self)@, fuel as int) {
                Ok((n, m)) => r is Ok && r.unwrap()@ == n && final(self)@ == m,
                Err(e) => r == Err::<String, RuntimeError>(e),
            },
            old(self)@.submap_of(final(self)@),
        decreases fuel, *values, 2int,
    {
        let ghost views = values_view(values@);
        proof {
            crate::types::lemma_values_view_len(values@);
        }
        let sep = values.len() != 1;
        let mut text = "(".to_owned();
        proof {
            reveal_strlit("(");
            reveal_strlit(",");
            reveal_strlit(")");
            assert(views.take(0) =~= Seq::<SpecValue>::empty());
        }
        let ghost start = self@;
        proof {
            assert(text@.skip(1) =~= Seq::<char>::empty());
        }
        let mut i: usize = 0;
        while i < values.len()
            invariant
                fuel <= 1,
                i <= values.len(),
                views == values_view(values@),
                views.len() == values.len(),
                sep == (values.len() != 1),
                start == old(self)@,
                elements_after(views.take(i as int), ctx@.slots, start, fuel as int, sep) == Ok::<
                    (Seq<char>, Map<Seq<char>, Type>),
                    RuntimeError,
                >((text@.skip(1), self@)),
                text@.len() >= 1,
                text@[0] == '(',
                start.submap_of(self@),
            decreases values.len() - i,
        {
            proof {
                lemma_values_view_index(values@, i as int);
                assert(views.take(i + 1).drop_last() =~= views.take(i as int));
                assert(views.take(i + 1).last() == values@[i as int]@);
                assert(decreases_to!(*values => values@));
                assert(decreases_to!(values@ => values@[i as int]));
            }
            let ghost before = text@;
            let ghost m1 = self@;
            let name = match self.typename_with(ctx, &values[i], fuel) {
                Ok(n) => n,
                Err(e) => {
                    proof {
                        assert(typename_after(views.take(i + 1).last(), ctx@.slots, m1, fuel as int) == Err::<
                            (Seq<char>, Map<Seq<char>, Type>),
                            RuntimeError,
                        >(e));
                        assert(elements_after(views.take(i + 1), ctx@.slots, start, fuel as int, sep) == Err::<
                            (Seq<char>, Map<Seq<char>, Type>),
                            RuntimeError,
                        >(e));
                        lemma_elements_error(views, i + 1, ctx@.slots, start, fuel as int, sep);
                    }
                    return Err(e);
                },
            };
            if !self.types.contains_key(name.as_str()) {
                proof {
                    assert(elements_after(views.take(i + 1), ctx@.slots, start, fuel as int, sep) == Err::<
                        (Seq<char>, Map<Seq<char>, Type>),
                        RuntimeError,
                    >(RuntimeError::UnknownType));
                    lemma_elements_error(views, i + 1, ctx@.slots, start, fuel as int, sep);
                }
                return Err(RuntimeError::UnknownType);
            }
            if sep {
                text.append(",");
            }
            text.append(name.as_str());
            proof {
                reveal_strlit(",");
                let piece = if sep { seq![','] } else { Seq::<char>::empty() };
                assert(text@ =~= before + piece + name@);
                assert(text@.skip(1) =~= before.skip(1) + piece + name@);
            }
            i = i + 1;
        }
        let ghost inner = text@.skip(1);
        proof {
            assert(views.take(values.len() as int) =~= views);
            assert(text@ =~= seq!['('] + inner);
        }
        text.append(")");
        assert(text@ =~= seq!['('] + inner + seq![')']);
        if !self.types.contains_key(text.as_str()) {
            self.types.insert(text.clone(), Type { validator: Validator::TupleOnly, attribute: Attr::Value });
        }
        Ok(text)
    }

    /// The registered type of the value `val` and its name (see `get_typename`); an
    /// unregistered name is an error.
    pub fn try_from_value(&mut self, ctx: &Context, val: &Value) -> (r: Result<(String, Type), RuntimeError>)
        ensures
            match typename_after(val@, ctx@.slots, old(self)@, 1) {
                Ok((n, m)) => final(self)@ == m && if m.contains_key(n) {
                    r is Ok && r.unwrap().0@ == n && r.unwrap().1 == m[n]
                } else {
                    r == Err::<(String, Type), RuntimeError>(RuntimeError::UnknownType)
                },
                Err(e) => r == Err::<(String, Type), RuntimeError>(e),
            },
            old(self)@.submap_of(final(self)@),
    {
        let name = match self.try_get_typename(ctx, val) {
            Ok(n) => n,
            Err(e) => return Err(e),
        };
        match self.get(name.as_str()) {
            Some(t) => Ok((name, t)),
            None => Err(RuntimeError::UnknownType),
        }
    }

    /// The registered type of the value `val` and its name, where it has one (see
    /// `try_from_value`).
    pub fn from_value(&mut self, ctx: &Context, val: &Value) -> (r: (String, Type))
        requires
            typename_after(val@, ctx@.slots, old(self)@, 1) matches Ok((n, m)) && m.contains_key(n),
        ensures
            r.0@ == typename_after(val@, ctx@.slots, old(self)@, 1)->Ok_0.0,
            final(self)@ == typename_after(val@, ctx@.slots, old(self)@, 1)->Ok_0.1,
            r.1 == final(self)@[r.0@],
    {
        self.try_from_value(ctx, val).unwrap()
    }
}

/// Once naming a prefix of a tuple's elements fails, naming them all fails the same way.
proof fn lemma_elements_error(
    vs: Seq<SpecValue>,
    k: int,
    slots: Seq<SpecInstance>,
    m: Map<Seq<char>, Type>,
    fuel: int,
    sep: bool,
)
    requires
        0 <= k <= vs.len(),
        elements_after(vs.take(k), slots, m, fuel, sep) is Err,
    ensures
        elements_after(vs, slots, m, fuel, sep) == elements_after(vs.take(k), slots, m, fuel, sep),
    decreases vs.len(),
{
    if k < vs.len() {
        assert(vs.drop_last().take(k) =~= vs.take(k));
        lemma_elements_error(vs.drop_last(), k, slots, m, fuel, sep);
    } else {
        assert(vs.take(k) =~= vs);
    }
}


impl TypeChecker {
    /// Registers the struct type `name`, which admits every value; a type of that name is replaced.
    pub fn register_struct(&mut self, name: &str)
        ensures
            final(self)@ == old(self)@.insert(name@, Type { validator: Validator::Any, attribute: Attr::Struct }),
    {
        self.types.insert(name.to_owned(), Type { validator: Validator::Any, attribute: Attr::Struct });
    }

    /// The parameter `varname: typename` of a function declaration; its type must be known.
    pub fn parameter(&self, varname: &str, typename: &str) -> (r: Result<crate::types::Parameter, RuntimeError>)
        ensures
            self@.contains_key(typename@) ==> r is Ok && r.unwrap().name@ == varname@ && r.unwrap().m_type@
                == typename@,
            !self@.contains_key(typename@) ==> r == Err::<crate::types::Parameter, RuntimeError>(
                RuntimeError::UnknownType,
            ),
    {
        if !self.types.contains_key(typename) {
            return Err(RuntimeError::UnknownType);
        }
        Ok(crate::types::Parameter { name: varname.to_owned(), m_type: typename.to_owned() })
    }
}

/// The builtin type that a declaration names by its lower-case word, `num` naming doubles.
pub open spec fn builtin_written_as(written: Seq<char>) -> Option<Builtin> {
    if written == seq!['d', 'y', 'n', 'a', 'm', 'i', 'c'] {
        Some(Builtin::Dynamic)
    } else if written == seq!['n', 'u', 'm'] {
        Some(Builtin::Double)
    } else if written == seq!['s', 't', 'r', 'i', 'n', 'g'] {
        Some(Builtin::Str)
    } else if written == seq!['b', 'o', 'o', 'l'] {
        Some(Builtin::Bool)
    } else if written == seq!['i', 'n', 't'] {
        Some(Builtin::Int)
    } else if written == seq!['n', 'o', 'n', 'e'] {
        Some(Builtin::Nothing)
    } else {
        None
    }
}

/// The registered name of the type a declaration writes: a builtin's lower-case word names
/// that builtin; any other name stands as it is.
pub open spec fn registered_name(written: Seq<char>) -> Seq<char> {
    match builtin_written_as(written) {
        Some(b) => builtin_name(b),
        None => written,
    }
}

/// The registered name of the type a declaration writes (see `registered_name`).
pub fn registered_type_name(written: &str) -> (r: String)
    ensures
        r@ == registered_name(written@),
{
    proof {
        reveal_strlit("dynamic");
        reveal_strlit("num");
        reveal_strlit("string");
        reveal_strlit("bool");
        reveal_strlit("int");
        reveal_strlit("none");
        assert("dynamic"@ =~= seq!['d', 'y', 'n', 'a', 'm', 'i', 'c']);
        assert("num"@ =~= seq!['n', 'u', 'm']);
        assert("string"@ =~= seq!['s', 't', 'r', 'i', 'n', 'g']);
        assert("bool"@ =~= seq!['b', 'o', 'o', 'l']);
        assert("int"@ =~= seq!['i', 'n', 't']);
        assert("none"@ =~= seq!['n', 'o', 'n', 'e']);
    }
    if crate::standard_functions::str_equal(written, "dynamic") {
        builtin_name_string(Builtin::Dynamic)
    } else if crate::standard_functions::str_equal(written, "num") {
        builtin_name_string(Builtin::Double)
    } else if crate::standard_functions::str_equal(written, "string") {
        builtin_name_string(Builtin::Str)
    } else if crate::standard_functions::str_equal(written, "bool") {
        builtin_name_string(Builtin::Bool)
    } else if crate::standard_functions::str_equal(written, "int") {
        builtin_name_string(Builtin::Int)
    } else if crate::standard_functions::str_equal(written, "none") {
        builtin_name_string(Builtin::Nothing)
    } else {
        written.to_owned()
    }
}

/// Law: a fresh registry holds the builtin types under their names, each admitting exactly
/// the values of its kind (`Dynamic` admits every value), and the name it gives a plain value
/// is that of a type admitting it.
pub proof fn lemma_builtin_types_admit(x: SpecValue, slots: Seq<SpecInstance>, fuel: int)
    ensures
        builtin_types().contains_key(seq!['N', 'o', 'n', 'e']),
        builtin_types().contains_key(seq!['I', 'n', 't']),
        builtin_types().contains_key(seq!['D', 'o', 'u', 'b', 'l', 'e']),
        builtin_types().contains_key(seq!['D', 'y', 'n', 'a', 'm', 'i', 'c']),
        builtin_types().contains_key(seq!['S', 't', 'r', 'i', 'n', 'g']),
        builtin_types().contains_key(seq!['B', 'o', 'o', 'l']),
        builtin_types().contains_key(seq!['A', 'r', 'r', 'a', 'y']),
        builtin_types().contains_key(seq!['F', 'n']),
        admits(builtin_types()[seq!['N', 'o', 'n', 'e']].validator, x) <==> x is Nothing,
        admits(builtin_types()[seq!['I', 'n', 't']].validator, x) <==> x is Int,
        admits(builtin_types()[seq!['D', 'o', 'u', 'b', 'l', 'e']].validator, x) <==> x is Double,
        admits(builtin_types()[seq!['D', 'y', 'n', 'a', 'm', 'i', 'c']].validator, x),
        admits(builtin_types()[seq!['S', 't', 'r', 'i', 'n', 'g']].validator, x) <==> x is String,
        admits(builtin_types()[seq!['B', 'o', 'o', 'l']].validator, x) <==> x is Bool,
        admits(builtin_types()[seq!['A', 'r', 'r', 'a', 'y']].validator, x) <==> x is Array,
        admits(builtin_types()[seq!['F', 'n']].validator, x) <==> x is Function,
        (x is Nothing || x is Int || x is Double || x is String || x is Bool || x is Array || x is Function)
            ==> (typename_after(x, slots, builtin_types(), fuel) matches Ok((n, m)) && m == builtin_types()
            && m.contains_key(n) && admits(m[n].validator, x)),
{
}

/// Law: each lower-case type word a declaration writes names a type of a fresh registry that
/// admits exactly the values of that kind (`dynamic` every value, `num` the doubles); any
/// other name is kept as written.
pub proof fn lemma_written_names_are_registered(w: Seq<char>, x: SpecValue)
    ensures
        builtin_types().contains_key(registered_name(seq!['d', 'y', 'n', 'a', 'm', 'i', 'c'])),
        admits(builtin_types()[registered_name(seq!['d', 'y', 'n', 'a', 'm', 'i', 'c'])].validator, x),
        admits(builtin_types()[registered_name(seq!['n', 'u', 'm'])].validator, x) <==> x is Double,
        admits(builtin_types()[registered_name(seq!['s', 't', 'r', 'i', 'n', 'g'])].validator, x) <==> x is String,
        admits(builtin_types()[registered_name(seq!['b', 'o', 'o', 'l'])].validator, x) <==> x is Bool,
        admits(builtin_types()[registered_name(seq!['i', 'n', 't'])].validator, x) <==> x is Int,
        admits(builtin_types()[registered_name(seq!['n', 'o', 'n', 'e'])].validator, x) <==> x is Nothing,
        builtin_written_as(w) is None ==> registered_name(w) == w,
{
    assert(seq!['d', 'y', 'n', 'a', 'm', 'i', 'c'] != seq!['n', 'u', 'm']);
    assert(seq!['n', 'u', 'm'] != seq!['d', 'y', 'n', 'a', 'm', 'i', 'c']);
    assert(seq!['s', 't', 'r', 'i', 'n', 'g'][0] == 's');
    assert(seq!['b', 'o', 'o', 'l'][0] == 'b');
    assert(seq!['i', 'n', 't'][0] == 'i');
    assert(seq!['n', 'o', 'n', 'e'][1] == 'o');
    lemma_builtin_types_admit(x, Seq::empty(), 0);
}

} // verus!
