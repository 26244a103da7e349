//! The builtin functions a program can call, and the text forms of values.
use vstd::prelude::*;
use vstd::string::StringExecFns;
use vstd::string::StrSliceExecFns;
use crate::interpreter::{Interpreter, InterpreterView, typed_elements, elements_view, lemma_typed_elements_keep_values};
use crate::typechecker::{Builtin, builtin_name, builtin_name_string, Type};
use crate::types::{
    Value, SpecValue, Instance, SpecInstance, Function, SpecFunction, RuntimeError, values_view,
    lemma_values_view_index, lemma_values_view_len,
};

verus! {

/// The decimal digits of `n`, most significant first.
pub open spec fn digits(n: nat) -> Seq<char>
    decreases n,
{
    if n < 10 {
        seq![digit_char(n)]
    } else {
        digits(n / 10).push(digit_char(n % 10))
    }
}

/// The character of the decimal digit `d`.
pub open spec fn digit_char(d: nat) -> char {
    if d == 0 {
        '0'
    } else if d == 1 {
        '1'
    } else if d == 2 {
        '2'
    } else if d == 3 {
        '3'
    } else if d == 4 {
        '4'
    } else if d == 5 {
        '5'
    } else if d == 6 {
        '6'
    } else if d == 7 {
        '7'
    } else if d == 8 {
        '8'
    } else {
        '9'
    }
}

/// The decimal text of the integer `n`, with a leading `-` when it is negative.
pub open spec fn decimal(n: int) -> Seq<char> {
    if n < 0 {
        seq!['-'] + digits((-n) as nat)
    } else {
        digits(n as nat)
    }
}

/// The text of a decimal digit.
fn digit_text(d: u64) -> (r: &'static str)
    requires
        d < 10,
    ensures
        r@ == seq![digit_char(d as nat)],
{
    proof {
        reveal_strlit("0");
        reveal_strlit("1");
        reveal_strlit("2");
        reveal_strlit("3");
        reveal_strlit("4");
        reveal_strlit("5");
        reveal_strlit("6");
        reveal_strlit("7");
        reveal_strlit("8");
        reveal_strlit("9");
    }
    let r = if d == 0 {
        "0"
    } else if d == 1 {
        "1"
    } else if d == 2 {
        "2"
    } else if d == 3 {
        "3"
    } else if d == 4 {
        "4"
    } else if d == 5 {
        "5"
    } else if d == 6 {
        "6"
    } else if d == 7 {
        "7"
    } else if d == 8 {
        "8"
    } else {
        "9"
    };
    assert(r@ =~= seq![digit_char(d as nat)]);
    r
}

/// The decimal digits of `n`.
fn digits_exec(n: u64) -> (r: String)
    ensures
        r@ == digits(n as nat),
    decreases n,
{
    if n < 10 {
        digit_text(n).to_owned()
    } else {
        let mut r = digits_exec(n / 10);
        r.append(digit_text(n % 10));
        r
    }
}

/// The decimal text of a 32-bit integer.
pub fn int_to_string(n: i32) -> (r: String)
    ensures
        r@ == decimal(n as int),
{
    if n < 0 {
        let m: i64 = -(n as i64);
        let mut r = "-".to_owned();
        proof {
            reveal_strlit("-");
        }
        let d = digits_exec(m as u64);
        r.append(d.as_str());
        r
    } else {
        digits_exec(n as u64)
    }
}

/// The text `name: type` of each parameter, joined by `, `.
pub open spec fn params_text(ps: Seq<(Seq<char>, Seq<char>)>) -> Seq<char>
    decreases ps.len(),
{
    if ps.len() == 0 {
        Seq::empty()
    } else if ps.len() == 1 {
        ps[0].0 + seq![':', ' '] + ps[0].1
    } else {
        params_text(ps.drop_last()) + seq![',', ' '] + ps.last().0 + seq![':', ' '] + ps.last().1
    }
}

/// The signature of a function: `name(p: T, q: U) -> R`.
pub open spec fn signature(f: SpecFunction) -> Seq<char> {
    f.name + seq!['('] + params_text(f.params) + seq![')', ' ', '-', '>', ' '] + f.return_type
}

/// The signature of `func`, as `name(p: T, q: U) -> R`.
pub fn get_function_signature(func: &Function) -> (r: String)
    ensures
        r@ == signature(func@),
{
    proof {
        reveal_strlit("(");
        reveal_strlit(": ");
        reveal_strlit(", ");
        reveal_strlit(") -> ");
    }
    let ghost ps = func@.params;
    let mut params = String::new();
    let mut i: usize = 0;
    proof {
        assert(ps.take(0) =~= Seq::<(Seq<char>, Seq<char>)>::empty());
    }
    while i < func.params.len()
        invariant
            i <= func.params.len(),
            ps == func@.params,
            ps.len() == func.params.len(),
            params@ == params_text(ps.take(i as int)),
        decreases func.params.len() - i,
    {
        proof {
            reveal_strlit(": ");
            reveal_strlit(", ");
            assert(ps.take(i + 1).drop_last() =~= ps.take(i as int));
            assert(ps[i as int] == (func.params@[i as int].name@, func.params@[i as int].m_type@));
        }
        let ghost before = params@;
        if i > 0 {
            params.append(", ");
        }
        params.append(func.params[i].name.as_str());
        params.append(": ");
        params.append(func.params[i].m_type.as_str());
        proof {
            if i == 0 {
                assert(ps.take(1) =~= seq![ps[0]]);
                assert(before =~= Seq::<char>::empty());
            }
            assert(params@ =~= params_text(ps.take(i + 1)));
        }
        i = i + 1;
    }
    proof {
        assert(ps.take(func.params.len() as int) =~= ps);
    }
    let mut r = func.name.clone();
    r.append("(");
    r.append(params.as_str());
    r.append(") -> ");
    r.append(func.return_type.as_str());
    assert(r@ =~= signature(func@));
    r
}

/// The text `tostr` gives for a value that is not a double; `None` for the values it does not
/// convert.
pub open spec fn text_of(st: InterpreterView, v: SpecValue) -> Option<Seq<char>> {
    match v {
        SpecValue::Int(i) => Some(decimal(i as int)),
        SpecValue::String(s) => Some(s),
        SpecValue::Bool(b) => Some(
            if b {
                seq!['t', 'r', 'u', 'e']
            } else {
                seq!['f', 'a', 'l', 's', 'e']
            },
        ),
        SpecValue::Nothing => Some(builtin_name(Builtin::Nothing)),
        SpecValue::Function(f) => if f < st.functions.len() {
            Some(signature(st.functions[f as int]))
        } else {
            None
        },
        SpecValue::Array(m, a) => if a < st.arrays.len() {
            Some(
                seq!['a', 'r', 'r', 'a', 'y', ' ', ':', ' '] + (if m {
                    seq!['m', 'u', 't', 'a', 'b', 'l', 'e']
                } else {
                    seq!['i', 'm', 'm', 'u', 't', 'a', 'b', 'l', 'e']
                }) + seq![' ', ',', ' ', 'l', 'e', 'n', 'g', 't', 'h', ' ', ':', ' '] + digits(
                    st.arrays[a as int].len(),
                ),
            )
        } else {
            None
        },
        _ => None,
    }
}

/// The length of the array `v` refers to.
fn array_len(interp: &Interpreter, a: usize) -> (r: usize)
    requires
        (a as int) < interp@.arrays.len(),
    ensures
        r == interp@.arrays[a as int].len(),
{
    let n = interp.arrays[a].len();
    assert(elements_view(interp.arrays@[a as int]@) == interp@.arrays[a as int]);
    n
}

/// `tostr`: the text of its one argument, which is not a double.
pub fn try_tostr(interp: &Interpreter, args: &Vec<Value>) -> (r: Result<Value, RuntimeError>)
    requires
        args.len() == 1 ==> !(args@[0]@ is Double),
    ensures
        args.len() != 1 ==> r == Err::<Value, RuntimeError>(RuntimeError::ArgumentCount),
        args.len() == 1 ==> match text_of(interp@, args@[0]@) {
            Some(t) => r is Ok && r.unwrap()@ == SpecValue::String(t),
            None => r == Err::<Value, RuntimeError>(RuntimeError::ArgumentKind),
        },
{
    if args.len() != 1 {
        return Err(RuntimeError::ArgumentCount);
    }
    proof {
        reveal_strlit("true");
        reveal_strlit("false");
        reveal_strlit("array : ");
        reveal_strlit("mutable");
        reveal_strlit("immutable");
        reveal_strlit(" , length : ");
    }
    let text = match &args[0] {
        Value::Int(i) => int_to_string(*i),
        Value::String(s) => s.clone(),
        Value::Bool(b) => {
            let t = if *b {
                "true".to_owned()
            } else {
                "false".to_owned()
            };
            assert(t@ =~= if *b {
                seq!['t', 'r', 'u', 'e']
            } else {
                seq!['f', 'a', 'l', 's', 'e']
            });
            t
        },
        Value::Nothing() => builtin_name_string(Builtin::Nothing),
        Value::Function(f) => {
            if *f >= interp.functions.len() {
                return Err(RuntimeError::ArgumentKind);
            }
            assert(interp@.functions[*f as int] == interp.functions@[*f as int]@);
            get_function_signature(&interp.functions[*f])
        },
        Value::Array(m, a) => {
            if *a >= interp.arrays.len() {
                return Err(RuntimeError::ArgumentKind);
            }
            let n = array_len(interp, *a);
            let mut t = "array : ".to_owned();
            if *m {
                t.append("mutable");
            } else {
                t.append("immutable");
            }
            t.append(" , length : ");
            let d = digits_exec(n as u64);
            t.append(d.as_str());
            assert(t@ =~= seq!['a', 'r', 'r', 'a', 'y', ' ', ':', ' '] + (if *m {
                seq!['m', 'u', 't', 'a', 'b', 'l', 'e']
            } else {
                seq!['i', 'm', 'm', 'u', 't', 'a', 'b', 'l', 'e']
            }) + seq![' ', ',', ' ', 'l', 'e', 'n', 'g', 't', 'h', ' ', ':', ' '] + digits(n as nat));
            t
        },
        _ => return Err(RuntimeError::ArgumentKind),
    };
    Ok(Value::String(text))
}

/// `tostr` on an argument that it converts: the text of that one argument.
pub fn tostr(interp: &Interpreter, args: &Vec<Value>) -> (r: Value)
    requires
        args.len() == 1,
        !(args@[0]@ is Double),
        text_of(interp@, args@[0]@) is Some,
    ensures
        r@ == SpecValue::String(text_of(interp@, args@[0]@)->Some_0),
{
    try_tostr(interp, args).unwrap()
}

/// `len`: the length of its one argument, an array, as a 32-bit integer.
pub fn try_length(interp: &Interpreter, args: &Vec<Value>) -> (r: Result<Value, RuntimeError>)
    ensures
        args.len() != 1 ==> r == Err::<Value, RuntimeError>(RuntimeError::ArgumentCount),
        args.len() == 1 ==> match args@[0]@ {
            SpecValue::Array(_, a) => if a < interp@.arrays.len() {
                r is Ok && r.unwrap()@ == SpecValue::Int(interp@.arrays[a as int].len() as i32)
            } else {
                r == Err::<Value, RuntimeError>(RuntimeError::DanglingReference)
            },
            _ => r == Err::<Value, RuntimeError>(RuntimeError::ArgumentKind),
        },
{
    if args.len() != 1 {
        return Err(RuntimeError::ArgumentCount);
    }
    match &args[0] {
        Value::Array(_, a) => {
            if *a >= interp.arrays.len() {
                return Err(RuntimeError::DanglingReference);
            }
            let n = array_len(interp, *a);
            Ok(Value::Int(n as i32))
        },
        _ => Err(RuntimeError::ArgumentKind),
    }
}

/// `len` on one array: its length.
pub fn length(interp: &Interpreter, args: &Vec<Value>) -> (r: Value)
    requires
        args.len() == 1,
        args@[0]@ matches SpecValue::Array(_, a) && a < interp@.arrays.len(),
    ensures
        r@ == SpecValue::Int(interp@.arrays[args@[0]@->Array_1 as int].len() as i32),
{
    try_length(interp, args).unwrap()
}

/// `assert`: fails unless its first argument is `true`; its second is the message, a string.
pub fn try_assert_that(args: &Vec<Value>) -> (r: Result<Value, RuntimeError>)
    ensures
        args.len() != 2 ==> r == Err::<Value, RuntimeError>(RuntimeError::ArgumentCount),
        args.len() == 2 ==> match (args@[0]@, args@[1]@) {
            (SpecValue::Bool(c), SpecValue::String(_)) => if c {
                r is Ok && r.unwrap()@ == SpecValue::Nothing
            } else {
                r == Err::<Value, RuntimeError>(RuntimeError::AssertionFailed)
            },
            _ => r == Err::<Value, RuntimeError>(RuntimeError::ArgumentKind),
        },
{
    if args.len() != 2 {
        return Err(RuntimeError::ArgumentCount);
    }
    let condition = match args[0].as_bool() {
        Some(c) => c,
        None => return Err(RuntimeError::ArgumentKind),
    };
    if args[1].as_string().is_none() {
        return Err(RuntimeError::ArgumentKind);
    }
    if !condition {
        return Err(RuntimeError::AssertionFailed);
    }
    Ok(Value::Nothing())
}

/// `assert` on a condition that holds and a message: none.
pub fn assert_that(args: &Vec<Value>) -> (r: Value)
    requires
        args.len() == 2,
        args@[0]@ == SpecValue::Bool(true),
        args@[1]@ is String,
    ensures
        r@ == SpecValue::Nothing,
{
    try_assert_that(args).unwrap()
}

/// Whether `assert_eq` takes two values as equal: two nones, or two integers, booleans or
/// strings that are equal.
pub open spec fn values_equal(a: SpecValue, b: SpecValue) -> bool {
    match (a, b) {
        (SpecValue::Nothing, SpecValue::Nothing) => true,
        (SpecValue::Int(x), SpecValue::Int(y)) => x == y,
        (SpecValue::Bool(x), SpecValue::Bool(y)) => x == y,
        (SpecValue::String(x), SpecValue::String(y)) => x == y,
        _ => false,
    }
}

/// `assert_eq`: fails unless its first two arguments are equal (see `values_equal`); its
/// third is the message, a string. Two doubles are compared outside this crate.
pub fn try_assert_eq(args: &Vec<Value>) -> (r: Result<Value, RuntimeError>)
    requires
        args.len() == 3 ==> !(args@[0]@ is Double && args@[1]@ is Double),
    ensures
        args.len() != 3 ==> r == Err::<Value, RuntimeError>(RuntimeError::ArgumentCount),
        args.len() == 3 ==> if !(args@[2]@ is String) {
            r == Err::<Value, RuntimeError>(RuntimeError::ArgumentKind)
        } else if values_equal(args@[0]@, args@[1]@) {
            r is Ok && r.unwrap()@ == SpecValue::Nothing
        } else {
            r == Err::<Value, RuntimeError>(RuntimeError::AssertionFailed)
        },
{
    if args.len() != 3 {
        return Err(RuntimeError::ArgumentCount);
    }
    if args[2].as_string().is_none() {
        return Err(RuntimeError::ArgumentKind);
    }
    let are_equal = match (&args[0], &args[1]) {
        (Value::Nothing(), Value::Nothing()) => true,
        (Value::Int(x), Value::Int(y)) => *x == *y,
        (Value::Bool(x), Value::Bool(y)) => *x == *y,
        (Value::String(x), Value::String(y)) => x.eq(y),
        _ => false,
    };
    if !are_equal {
        return Err(RuntimeError::AssertionFailed);
    }
    Ok(Value::Nothing())
}

/// `assert_eq` on two equal values and a message: none.
pub fn assert_eq(args: &Vec<Value>) -> (r: Value)
    requires
        args.len() == 3,
        !(args@[0]@ is Double && args@[1]@ is Double),
        args@[2]@ is String,
        values_equal(args@[0]@, args@[1]@),
    ensures
        r@ == SpecValue::Nothing,
{
    try_assert_eq(args).unwrap()
}

/// `abs`: the absolute value of its one argument, an integer; the smallest integer has none
/// in 32 bits. A double is handled outside this crate.
pub fn try_abs(args: &Vec<Value>) -> (r: Result<Value, RuntimeError>)
    requires
        args.len() == 1 ==> !(args@[0]@ is Double),
    ensures
        args.len() != 1 ==> r == Err::<Value, RuntimeError>(RuntimeError::ArgumentCount),
        args.len() == 1 ==> match args@[0]@ {
            SpecValue::Int(i) => if i == i32::MIN {
                r == Err::<Value, RuntimeError>(RuntimeError::IntegerOverflow)
            } else {
                r is Ok && r.unwrap()@ == SpecValue::Int((if i < 0 { -(i as int) } else { i as int }) as i32)
            },
            _ => r == Err::<Value, RuntimeError>(RuntimeError::ArgumentKind),
        },
{
    if args.len() != 1 {
        return Err(RuntimeError::ArgumentCount);
    }
    match &args[0] {
        Value::Int(i) => {
            if *i == i32::MIN {
                Err(RuntimeError::IntegerOverflow)
            } else if *i < 0 {
                Ok(Value::Int(-*i))
            } else {
                Ok(Value::Int(*i))
            }
        },
        _ => Err(RuntimeError::ArgumentKind),
    }
}


/// `abs` on an integer that has an absolute value in 32 bits.
pub fn abs(args: &Vec<Value>) -> (r: Value)
    requires
        args.len() == 1,
        args@[0]@ matches SpecValue::Int(i) && i != i32::MIN,
    ensures
        r@ == SpecValue::Int(
            (if args@[0]@->Int_0 < 0 {
                -(args@[0]@->Int_0 as int)
            } else {
                args@[0]@->Int_0 as int
            }) as i32,
        ),
{
    try_abs(args).unwrap()
}

/// The program state after `push`: its first argument must be a changeable array, and the
/// other arguments are appended to it, each as an element of the registered type of its value
/// (see `typed_elements`), changeable as the array is. Gives the array back too.
pub open spec fn push_outcome(st: InterpreterView, args: Seq<SpecValue>) -> Result<(SpecValue, InterpreterView), RuntimeError> {
    if args.len() < 2 {
        Err(RuntimeError::ArgumentCount)
    } else {
        match args[0] {
            SpecValue::Array(m, a) => if a >= st.arrays.len() {
                Err(RuntimeError::DanglingReference)
            } else if !m {
                Err(RuntimeError::ImmutableArray)
            } else {
                match typed_elements(args.skip(1), st.ctx.slots, st.types, m) {
                    Ok((insts, tm)) => Ok((
                        args[0],
                        InterpreterView {
                            arrays: st.arrays.update(a as int, st.arrays[a as int] + insts),
                            types: tm,
                            ..st
                        },
                    )),
                    Err(e) => Err(e),
                }
            },
            _ => Err(RuntimeError::ExpectedArray),
        }
    }
}

/// `push`: appends its other arguments to the array that is its first (see `push_outcome`);
/// on an error no variable, array or function changes.
pub fn try_push(interp: &mut Interpreter, args: &Vec<Value>) -> (r: Result<Value, RuntimeError>)
    ensures
        match push_outcome(old(interp)@, values_view(args@)) {
            Ok((v, st)) => r is Ok && r.unwrap()@ == v && final(interp)@ == st,
            Err(e) => r == Err::<Value, RuntimeError>(e) && final(interp)@.ctx == old(interp)@.ctx
                && final(interp)@.arrays == old(interp)@.arrays && final(interp)@.functions == old(interp)@.functions
                && old(interp)@.types.submap_of(final(interp)@.types),
        },
{
    proof {
        lemma_values_view_len(args@);
    }
    if args.len() < 2 {
        return Err(RuntimeError::ArgumentCount);
    }
    proof {
        lemma_values_view_index(args@, 0);
    }
    let (m, a) = match &args[0] {
        Value::Array(m, a) => (*m, *a),
        _ => return Err(RuntimeError::ExpectedArray),
    };
    if a >= interp.arrays.len() {
        return Err(RuntimeError::DanglingReference);
    }
    if !m {
        return Err(RuntimeError::ImmutableArray);
    }
    let ghost start = interp@;
    let mut added = match interp.typed_instances(args, 1, m) {
        Ok(v) => v,
        Err(e) => return Err(e),
    };
    let ghost added_view = elements_view(added@);
    let mut elements = interp.arrays.remove(a);
    let ghost old_elements = elements@;
    elements.append(&mut added);
    interp.arrays.insert(a, elements);
    proof {
        assert(elements_view(elements@) =~= elements_view(old_elements) + added_view);
        assert(elements_view(old_elements) == start.arrays[a as int]);
        assert(interp@.arrays =~= start.arrays.update(a as int, start.arrays[a as int] + added_view));
    }
    Ok(Value::Array(m, a))
}

/// `push` where it succeeds (see `push_outcome`): the array, with the state that follows.
pub fn push(interp: &mut Interpreter, args: &Vec<Value>) -> (r: Value)
    requires
        push_outcome(old(interp)@, values_view(args@)) is Ok,
    ensures
        r@ == push_outcome(old(interp)@, values_view(args@))->Ok_0.0,
        final(interp)@ == push_outcome(old(interp)@, values_view(args@))->Ok_0.1,
{
    try_push(interp, args).unwrap()
}

/// The program state after `pop`: its one argument must be a non-empty, changeable array,
/// whose last element is removed. Gives that element's value too.
pub open spec fn pop_outcome(st: InterpreterView, args: Seq<SpecValue>) -> Result<(SpecValue, InterpreterView), RuntimeError> {
    if args.len() != 1 {
        Err(RuntimeError::ArgumentCount)
    } else {
        match args[0] {
            SpecValue::Array(m, a) => if a >= st.arrays.len() {
                Err(RuntimeError::DanglingReference)
            } else if st.arrays[a as int].len() == 0 {
                Err(RuntimeError::EmptyArray)
            } else if !m {
                Err(RuntimeError::ImmutableArray)
            } else {
                Ok((
                    st.arrays[a as int].last().value,
                    InterpreterView { arrays: st.arrays.update(a as int, st.arrays[a as int].drop_last()), ..st },
                ))
            },
            _ => Err(RuntimeError::ExpectedArray),
        }
    }
}

/// `pop`: removes the last element of the array that is its one argument and gives its value
/// (see `pop_outcome`); on an error nothing changes.
pub fn try_pop(interp: &mut Interpreter, args: &Vec<Value>) -> (r: Result<Value, RuntimeError>)
    ensures
        match pop_outcome(old(interp)@, values_view(args@)) {
            Ok((v, st)) => r is Ok && r.unwrap()@ == v && final(interp)@ == st,
            Err(e) => r == Err::<Value, RuntimeError>(e) && final(interp)@ == old(interp)@,
        },
{
    proof {
        lemma_values_view_len(args@);
    }
    if args.len() != 1 {
        return Err(RuntimeError::ArgumentCount);
    }
    proof {
        lemma_values_view_index(args@, 0);
    }
    let (m, a) = match &args[0] {
        Value::Array(m, a) => (*m, *a),
        _ => return Err(RuntimeError::ExpectedArray),
    };
    if a >= interp.arrays.len() {
        return Err(RuntimeError::DanglingReference);
    }
    if array_len(interp, a) == 0 {
        return Err(RuntimeError::EmptyArray);
    }
    if !m {
        return Err(RuntimeError::ImmutableArray);
    }
    let ghost start = interp@;
    let mut elements = interp.arrays.remove(a);
    let ghost old_elements = elements@;
    assert(elements_view(old_elements) == start.arrays[a as int]);
    let last = elements.pop().unwrap();
    interp.arrays.insert(a, elements);
    proof {
        assert(elements_view(elements@) =~= elements_view(old_elements).drop_last());
        assert(interp@.arrays =~= start.arrays.update(a as int, start.arrays[a as int].drop_last()));
    }
    Ok(last.value)
}


/// `pop` where it succeeds (see `pop_outcome`): the removed value, with the state that
/// follows.
pub fn pop(interp: &mut Interpreter, args: &Vec<Value>) -> (r: Value)
    requires
        pop_outcome(old(interp)@, values_view(args@)) is Ok,
    ensures
        r@ == pop_outcome(old(interp)@, values_view(args@))->Ok_0.0,
        final(interp)@ == pop_outcome(old(interp)@, values_view(args@))->Ok_0.1,
{
    try_pop(interp, args).unwrap()
}

/// Popping an array right after pushing one value onto it gives that value back and leaves
/// every array as it was before the push.
pub proof fn lemma_pop_undoes_push(st: InterpreterView, arr: SpecValue, x: SpecValue)
    requires
        push_outcome(st, seq![arr, x]) is Ok,
    ensures
        ({
            let st2 = push_outcome(st, seq![arr, x])->Ok_0.1;
            &&& pop_outcome(st2, seq![arr]) is Ok
            &&& pop_outcome(st2, seq![arr])->Ok_0.0 == x
            &&& pop_outcome(st2, seq![arr])->Ok_0.1.arrays == st.arrays
        }),
{
    let a = arr->Array_1;
    let rest = seq![arr, x].skip(1);
    assert(rest =~= seq![x]);
    assert(rest.drop_last() =~= Seq::<SpecValue>::empty());
    let st2 = push_outcome(st, seq![arr, x])->Ok_0.1;
    let m = arr->Array_0;
    assert(rest.last() == x);
    assert(typed_elements(rest.drop_last(), st.ctx.slots, st.types, m) == Ok::<
        (Seq<SpecInstance>, Map<Seq<char>, Type>),
        RuntimeError,
    >((Seq::<SpecInstance>::empty(), st.types)));
    let insts = typed_elements(rest, st.ctx.slots, st.types, m)->Ok_0.0;
    assert(insts.len() == 1 && insts[0].value == x);
    assert((st.arrays[a as int] + insts).drop_last() =~= st.arrays[a as int]);
    assert(st2.arrays.update(a as int, st2.arrays[a as int].drop_last()) =~= st.arrays);
}


/// The builtin functions a program can call by name.
#[derive(Debug, Clone, Copy, PartialEq, Eq, Structural)]
pub enum StandardFunction {
    Println,
    Readln,
    Wait,
    Tostr,
    Time,
    Assert,
    AssertEq,
    Len,
    Push,
    Pop,
    Floor,
    Abs,
}

/// The name a program calls a builtin function by.
pub open spec fn standard_name(f: StandardFunction) -> Seq<char> {
    match f {
        StandardFunction::Println => seq!['p', 'r', 'i', 'n', 't', 'l', 'n'],
        StandardFunction::Readln => seq!['r', 'e', 'a', 'd', 'l', 'n'],
        StandardFunction::Wait => seq!['w', 'a', 'i', 't'],
        StandardFunction::Tostr => seq!['t', 'o', 's', 't', 'r'],
        StandardFunction::Time => seq!['t', 'i', 'm', 'e'],
        StandardFunction::Assert => seq!['a', 's', 's', 'e', 'r', 't'],
        StandardFunction::AssertEq => seq!['a', 's', 's', 'e', 'r', 't', '_', 'e', 'q'],
        StandardFunction::Len => seq!['l', 'e', 'n'],
        StandardFunction::Push => seq!['p', 'u', 's', 'h'],
        StandardFunction::Pop => seq!['p', 'o', 'p'],
        StandardFunction::Floor => seq!['f', 'l', 'o', 'o', 'r'],
        StandardFunction::Abs => seq!['a', 'b', 's'],
    }
}

/// The builtin function called `id`, if there is one.
pub open spec fn builtin_named(id: Seq<char>) -> Option<StandardFunction> {
    if exists|f: StandardFunction| standard_name(f) == id {
        Some(choose|f: StandardFunction| standard_name(f) == id)
    } else {
        None
    }
}

/// No two builtin functions share a name.
pub proof fn lemma_standard_name_injective(f: StandardFunction, g: StandardFunction)
    ensures
        standard_name(f) == standard_name(g) ==> f == g,
{
    if standard_name(f) == standard_name(g) {
        assert(standard_name(f).len() == standard_name(g).len());
        assert(standard_name(f)[0] == standard_name(g)[0]);
    }
}

/// The builtin function that has a name is the one `builtin_named` gives for it.
pub proof fn lemma_builtin_named(id: Seq<char>, f: StandardFunction)
    requires
        standard_name(f) == id,
    ensures
        builtin_named(id) == Some(f),
{
    let g = choose|g: StandardFunction| standard_name(g) == id;
    lemma_standard_name_injective(f, g);
}

/// The builtin function called `name`, if there is one.
pub fn get_builtin_function(name: &str) -> (r: Option<StandardFunction>)
    ensures
        match r {
            Some(f) => standard_name(f) == name@,
            None => forall|f: StandardFunction| standard_name(f) != name@,
        },
{
    proof {
        reveal_strlit("println");
        reveal_strlit("readln");
        reveal_strlit("wait");
        reveal_strlit("tostr");
        reveal_strlit("time");
        reveal_strlit("assert");
        reveal_strlit("assert_eq");
        reveal_strlit("len");
        reveal_strlit("push");
        reveal_strlit("pop");
        reveal_strlit("floor");
        reveal_strlit("abs");
        assert("println"@ =~= standard_name(StandardFunction::Println));
        assert("readln"@ =~= standard_name(StandardFunction::Readln));
        assert("wait"@ =~= standard_name(StandardFunction::Wait));
        assert("tostr"@ =~= standard_name(StandardFunction::Tostr));
        assert("time"@ =~= standard_name(StandardFunction::Time));
        assert("assert"@ =~= standard_name(StandardFunction::Assert));
        assert("assert_eq"@ =~= standard_name(StandardFunction::AssertEq));
        assert("len"@ =~= standard_name(StandardFunction::Len));
        assert("push"@ =~= standard_name(StandardFunction::Push));
        assert("pop"@ =~= standard_name(StandardFunction::Pop));
        assert("floor"@ =~= standard_name(StandardFunction::Floor));
        assert("abs"@ =~= standard_name(StandardFunction::Abs));
    }
    let all = [
        StandardFunction::Println,
        StandardFunction::Readln,
        StandardFunction::Wait,
        StandardFunction::Tostr,
        StandardFunction::Time,
        StandardFunction::Assert,
        StandardFunction::AssertEq,
        StandardFunction::Len,
        StandardFunction::Push,
        StandardFunction::Pop,
        StandardFunction::Floor,
        StandardFunction::Abs,
    ];
    let mut i: usize = 0;
    while i < 12
        invariant
            i <= 12,
            all@ == seq![
                StandardFunction::Println,
                StandardFunction::Readln,
                StandardFunction::Wait,
                StandardFunction::Tostr,
                StandardFunction::Time,
                StandardFunction::Assert,
                StandardFunction::AssertEq,
                StandardFunction::Len,
                StandardFunction::Push,
                StandardFunction::Pop,
                StandardFunction::Floor,
                StandardFunction::Abs,
            ],
            forall|j: int| 0 <= j < i ==> standard_name(#[trigger] all@[j]) != name@,
        decreases 12 - i,
    {
        let f = all[i];
        if str_equal(standard_name_str(f), name) {
            return Some(f);
        }
        i = i + 1;
    }
    assert forall|f: StandardFunction| standard_name(f) != name@ by {
        match f {
            StandardFunction::Println => assert(all@[0] == f),
            StandardFunction::Readln => assert(all@[1] == f),
            StandardFunction::Wait => assert(all@[2] == f),
            StandardFunction::Tostr => assert(all@[3] == f),
            StandardFunction::Time => assert(all@[4] == f),
            StandardFunction::Assert => assert(all@[5] == f),
            StandardFunction::AssertEq => assert(all@[6] == f),
            StandardFunction::Len => assert(all@[7] == f),
            StandardFunction::Push => assert(all@[8] == f),
            StandardFunction::Pop => assert(all@[9] == f),
            StandardFunction::Floor => assert(all@[10] == f),
            StandardFunction::Abs => assert(all@[11] == f),
        }
    }
    None
}

/// The name of a builtin function, as text.
fn standard_name_str(f: StandardFunction) -> (r: &'static str)
    ensures
        r@ == standard_name(f),
{
    proof {
        reveal_strlit("println");
        reveal_strlit("readln");
        reveal_strlit("wait");
        reveal_strlit("tostr");
        reveal_strlit("time");
        reveal_strlit("assert");
        reveal_strlit("assert_eq");
        reveal_strlit("len");
        reveal_strlit("push");
        reveal_strlit("pop");
        reveal_strlit("floor");
        reveal_strlit("abs");
    }
    let r = match f {
        StandardFunction::Println => "println",
        StandardFunction::Readln => "readln",
        StandardFunction::Wait => "wait",
        StandardFunction::Tostr => "tostr",
        StandardFunction::Time => "time",
        StandardFunction::Assert => "assert",
        StandardFunction::AssertEq => "assert_eq",
        StandardFunction::Len => "len",
        StandardFunction::Push => "push",
        StandardFunction::Pop => "pop",
        StandardFunction::Floor => "floor",
        StandardFunction::Abs => "abs",
    };
    assert(r@ =~= standard_name(f));
    r
}

/// Whether two texts are equal, character by character.
pub(crate) fn str_equal(a: &str, b: &str) -> (r: bool)
    ensures
        r == (a@ == b@),
{
    let n = a.unicode_len();
    if n != b.unicode_len() {
        return false;
    }
    let mut i: usize = 0;
    while i < n
        invariant
            n == a@.len(),
            n == b@.len(),
            i <= n,
            forall|j: int| 0 <= j < i ==> a@[j] == b@[j],
        decreases n - i,
    {
        if a.get_char(i) != b.get_char(i) {
            return false;
        }
        i = i + 1;
    }
    assert(a@ =~= b@);
    true
}


/// The text `println` writes for a value that is neither a double nor a function: the text
/// of an integer, boolean or string and a line break, `None` for none, for an array
/// whether it is changeable (`var`) or not (`const`) with its length, and for a struct value
/// `global::` and its type's name. `None` for the values it
/// does not print.
pub open spec fn print_text_of(st: InterpreterView, v: SpecValue) -> Option<Seq<char>> {
    match v {
        SpecValue::Int(i) => Some(decimal(i as int) + seq!['\n']),
        SpecValue::Bool(b) => Some(
            (if b {
                seq!['t', 'r', 'u', 'e']
            } else {
                seq!['f', 'a', 'l', 's', 'e']
            }) + seq!['\n'],
        ),
        SpecValue::String(s) => Some(s + seq!['\n']),
        SpecValue::Nothing => Some(builtin_name(Builtin::Nothing)),
        SpecValue::Array(m, a) => if a < st.arrays.len() {
            Some(
                (if m {
                    seq!['v', 'a', 'r']
                } else {
                    seq!['c', 'o', 'n', 's', 't']
                }) + seq![' ', 'A', 'r', 'r', 'a', 'y', '<', 'T', '>', ' ', ':', ' ', 'l', 'e', 'n', 'g', 't', 'h', ' ']
                    + digits(st.arrays[a as int].len()) + seq!['\n'],
            )
        } else {
            None
        },
        SpecValue::StructInstance { typename, .. } => Some(
            seq!['g', 'l', 'o', 'b', 'a', 'l', ':', ':'] + typename + seq!['\n'],
        ),
        _ => None,
    }
}

/// The text `println` writes for `v`, which is neither a double nor a function (see
/// `print_text_of`); other values it does not print are an error.
pub fn print_text(interp: &Interpreter, v: &Value) -> (r: Result<String, RuntimeError>)
    requires
        !(v@ is Double),
        !(v@ is Function),
    ensures
        match print_text_of(interp@, v@) {
            Some(t) => r is Ok && r.unwrap()@ == t,
            None => r == Err::<String, RuntimeError>(RuntimeError::ArgumentKind),
        },
{
    proof {
        reveal_strlit("\n");
        reveal_strlit("true\n");
        reveal_strlit("false\n");
        reveal_strlit("var");
        reveal_strlit("const");
        reveal_strlit(" Array<T> : length ");
    }
    match v {
        Value::Int(i) => {
            let mut t = int_to_string(*i);
            t.append("\n");
            Ok(t)
        },
        Value::Bool(b) => {
            let t = if *b {
                "true\n".to_owned()
            } else {
                "false\n".to_owned()
            };
            assert(t@ =~= (if *b {
                seq!['t', 'r', 'u', 'e']
            } else {
                seq!['f', 'a', 'l', 's', 'e']
            }) + seq!['\n']);
            Ok(t)
        },
        Value::String(s) => {
            let mut t = s.clone();
            t.append("\n");
            Ok(t)
        },
        Value::Nothing() => Ok(builtin_name_string(Builtin::Nothing)),
        Value::Array(m, a) => {
            if *a >= interp.arrays.len() {
                return Err(RuntimeError::ArgumentKind);
            }
            let n = array_len(interp, *a);
            let mut t = if *m {
                "var".to_owned()
            } else {
                "const".to_owned()
            };
            t.append(" Array<T> : length ");
            let d = digits_exec(n as u64);
            t.append(d.as_str());
            t.append("\n");
            assert(t@ =~= (if *m {
                seq!['v', 'a', 'r']
            } else {
                seq!['c', 'o', 'n', 's', 't']
            }) + seq![' ', 'A', 'r', 'r', 'a', 'y', '<', 'T', '>', ' ', ':', ' ', 'l', 'e', 'n', 'g', 't', 'h', ' ']
                + digits(n as nat) + seq!['\n']);
            Ok(t)
        },
        Value::StructInstance { typename, .. } => {
            proof {
                reveal_strlit("global::");
            }
            let mut t = "global::".to_owned();
            t.append(typename.as_str());
            t.append("\n");
            assert(t@ =~= seq!['g', 'l', 'o', 'b', 'a', 'l', ':', ':'] + typename@ + seq!['\n']);
            Ok(t)
        },
        _ => Err(RuntimeError::ArgumentKind),
    }
}

/// The number a text of decimal digits stands for, most significant digit first.
pub open spec fn digits_value(s: Seq<char>) -> int
    decreases s.len(),
{
    if s.len() == 0 {
        0
    } else {
        digits_value(s.drop_last()) * 10 + (s.last() as int - '0' as int)
    }
}

/// A digit's character stands for the digit.
proof fn lemma_digit_char_value(d: nat)
    requires
        d < 10,
    ensures
        '0' <= digit_char(d) <= '9',
        digit_char(d) as int - '0' as int == d,
        d > 0 ==> digit_char(d) != '0',
{
    assert('0' as int == 48);
    assert('9' as int == 57);
}

/// Law: the decimal digits of `n` are digits, with no leading zero (but for `0` itself), and
/// read back as `n`.
pub proof fn lemma_digits_read_back(n: nat)
    ensures
        digits(n).len() > 0,
        forall|j: int| 0 <= j < digits(n).len() ==> '0' <= #[trigger] digits(n)[j] <= '9',
        n > 0 ==> digits(n)[0] != '0',
        digits_value(digits(n)) == n,
    decreases n,
{
    if n < 10 {
        lemma_digit_char_value(n);
        assert(digits(n).drop_last() =~= Seq::<char>::empty());
        assert(digits_value(Seq::<char>::empty()) == 0);
        assert(digits(n).last() == digit_char(n));
        assert(digits_value(digits(n)) == digits_value(digits(n).drop_last()) * 10 + (digit_char(n) as int - '0' as int));
    } else {
        lemma_digits_read_back(n / 10);
        lemma_digit_char_value(n % 10);
        let p = digits(n / 10);
        assert(digits(n).drop_last() =~= p);
        assert(digits(n).last() == digit_char(n % 10));
        assert(digits_value(digits(n)) == digits_value(p) * 10 + (digit_char(n % 10) as int - '0' as int));
        assert((n / 10) * 10 + n % 10 == n);
        assert(digits(n)[0] == p[0]);
        assert forall|j: int| 0 <= j < digits(n).len() implies '0' <= #[trigger] digits(n)[j] <= '9' by {
            if j < p.len() {
                assert(digits(n)[j] == p[j]);
            }
        }
    }
}

/// Law: the text of an integer is its digits, after a `-` when it is negative.
pub proof fn lemma_decimal_read_back(n: int)
    ensures
        n >= 0 ==> digits_value(decimal(n)) == n && decimal(n)[0] != '-',
        n < 0 ==> decimal(n)[0] == '-' && digits_value(decimal(n).skip(1)) == -n,
{
    if n >= 0 {
        lemma_digits_read_back(n as nat);
    } else {
        lemma_digits_read_back((-n) as nat);
        assert(decimal(n).skip(1) =~= digits((-n) as nat));
    }
}

/// Law: `abs` of an integer other than the smallest is non-negative and is the integer or its
/// negation.
pub proof fn lemma_abs_is_magnitude(args: Seq<Value>, i: i32)
    requires
        args.len() == 1,
        args[0]@ == SpecValue::Int(i),
        i != i32::MIN,
    ensures
        abs_outcome(args) matches Ok(SpecValue::Int(r)) && r >= 0 && (r == i || r == -i),
        i < 0 ==> abs_outcome(args) == Ok::<SpecValue, RuntimeError>(SpecValue::Int((-i) as i32)),
        i >= 0 ==> abs_outcome(args) == Ok::<SpecValue, RuntimeError>(SpecValue::Int(i)),
{
}

/// Law: after `push` of `k` values onto an array, `len` of that array is `k` more than
/// before, and the array's old elements stay in front.
pub proof fn lemma_push_grows_length(st: InterpreterView, args: Seq<Value>)
    requires
        push_outcome(st, values_view(args)) is Ok,
    ensures
        ({
            let st2 = push_outcome(st, values_view(args))->Ok_0.1;
            let a = args[0]@->Array_1 as int;
            &&& args[0]@ is Array
            &&& st2.arrays[a].len() == st.arrays[a].len() + args.len() - 1
            &&& st2.arrays[a].take(st.arrays[a].len() as int) == st.arrays[a]
        }),
{
    lemma_values_view_len(args);
    lemma_values_view_index(args, 0);
    let vs = values_view(args);
    let m = vs[0]->Array_0;
    let a = vs[0]->Array_1 as int;
    let rest = vs.skip(1);
    lemma_typed_elements_keep_values(rest, st.ctx.slots, st.types, m);
    let insts = typed_elements(rest, st.ctx.slots, st.types, m)->Ok_0.0;
    assert((st.arrays[a] + insts).take(st.arrays[a].len() as int) =~= st.arrays[a]);
}

/// Law: `tostr` of an integer is a text that reads back as that integer (its magnitude in
/// digits, after a `-` when it is negative); of a boolean, `true` or `false` as it holds; of a
/// string, the string itself.
pub proof fn lemma_tostr_reads_back(st: InterpreterView, v: SpecValue)
    ensures
        v matches SpecValue::Int(i) ==> (text_of(st, v) matches Some(t) && (i >= 0 ==> digits_value(t) == i
            && t[0] != '-') && (i < 0 ==> t[0] == '-' && digits_value(t.skip(1)) == -i)),
        v matches SpecValue::Bool(b) ==> text_of(st, v) == Some(
            if b {
                seq!['t', 'r', 'u', 'e']
            } else {
                seq!['f', 'a', 'l', 's', 'e']
            },
        ),
        v matches SpecValue::String(x) ==> text_of(st, v) == Some(x),
{
    if let SpecValue::Int(i) = v {
        lemma_decimal_read_back(i as int);
    }
}

/// Law: `println` writes an integer, a boolean or a string as `tostr` gives its text,
/// followed by a line break.
pub proof fn lemma_print_is_text_line(st: InterpreterView, v: SpecValue)
    requires
        v is Int || v is Bool || v is String,
    ensures
        text_of(st, v) is Some,
        print_text_of(st, v) == Some(text_of(st, v)->Some_0 + seq!['\n']),
{
}

/// Law: a signature lists its parameters as `name: type`, separated by `, `, between the
/// function's name with `(` and `) -> ` with its return type.
pub proof fn lemma_signature_layout(f: SpecFunction)
    ensures
        f.params.len() == 0 ==> signature(f) == f.name + seq!['(', ')', ' ', '-', '>', ' '] + f.return_type,
        f.params.len() == 1 ==> signature(f) == f.name + seq!['('] + f.params[0].0 + seq![':', ' '] + f.params[0].1
            + seq![')', ' ', '-', '>', ' '] + f.return_type,
        f.params.len() == 2 ==> signature(f) == f.name + seq!['('] + f.params[0].0 + seq![':', ' '] + f.params[0].1
            + seq![',', ' '] + f.params[1].0 + seq![':', ' '] + f.params[1].1 + seq![')', ' ', '-', '>', ' ']
            + f.return_type,
{
    let ps = f.params;
    if ps.len() == 0 {
        assert(f.name + seq!['('] + Seq::<char>::empty() + seq![')', ' ', '-', '>', ' '] + f.return_type
            =~= f.name + seq!['(', ')', ' ', '-', '>', ' '] + f.return_type);
    } else if ps.len() == 1 {
        assert(f.name + seq!['('] + (ps[0].0 + seq![':', ' '] + ps[0].1) + seq![')', ' ', '-', '>', ' '] + f.return_type
            =~= f.name + seq!['('] + ps[0].0 + seq![':', ' '] + ps[0].1 + seq![')', ' ', '-', '>', ' '] + f.return_type);
    } else if ps.len() == 2 {
        let p0 = ps.drop_last();
        assert(p0.len() == 1 && p0[0] == ps[0]);
        assert(params_text(p0) == ps[0].0 + seq![':', ' '] + ps[0].1);
        assert(f.name + seq!['('] + params_text(ps) + seq![')', ' ', '-', '>', ' '] + f.return_type =~= f.name
            + seq!['('] + ps[0].0 + seq![':', ' '] + ps[0].1 + seq![',', ' '] + ps[1].0 + seq![':', ' '] + ps[1].1
            + seq![')', ' ', '-', '>', ' '] + f.return_type);
    }
}

/// Law: `assert_eq` takes two values as equal exactly when they are the same none, integer,
/// boolean or string; values of different kinds are never equal, and the comparison is
/// symmetric.
pub proof fn lemma_values_equal_is_equality(a: SpecValue, b: SpecValue)
    ensures
        values_equal(a, b) <==> (a == b && (a is Nothing || a is Int || a is Bool || a is String)),
        values_equal(a, b) == values_equal(b, a),
{
}

/// Law: `assert_eq` on two values and a string message succeeds, giving none, exactly when the
/// two values are equal (doubles aside); otherwise the assertion fails.
pub proof fn lemma_assert_eq_succeeds_on_equal(args: Seq<Value>)
    requires
        args.len() == 3,
        args[2]@ is String,
    ensures
        assert_eq_outcome(args) == (if args[0]@ == args[1]@ && (args[0]@ is Nothing || args[0]@ is Int
            || args[0]@ is Bool || args[0]@ is String) {
            Ok::<SpecValue, RuntimeError>(SpecValue::Nothing)
        } else {
            Err::<SpecValue, RuntimeError>(RuntimeError::AssertionFailed)
        }),
{
    lemma_values_equal_is_equality(args[0]@, args[1]@);
}

/// Law: `assert` on a boolean and a string message succeeds, giving none, exactly when the
/// boolean is true.
pub proof fn lemma_assert_succeeds_on_true(args: Seq<Value>, c: bool)
    requires
        args.len() == 2,
        args[0]@ == SpecValue::Bool(c),
        args[1]@ is String,
    ensures
        assert_outcome(args) is Ok <==> c,
        c ==> assert_outcome(args) == Ok::<SpecValue, RuntimeError>(SpecValue::Nothing),
        !c ==> assert_outcome(args) == Err::<SpecValue, RuntimeError>(RuntimeError::AssertionFailed),
{
}

/// What a builtin call gives inside this crate.
#[derive(Debug)]
pub enum BuiltinCall {
    /// The value the call gave.
    Done(Value),
    /// The call is made outside this crate: it prints, reads a line, waits, reads the clock or
    /// computes with doubles.
    Outside,
}

/// A value, with the state that it leaves unchanged.
pub open spec fn with_state(r: Result<SpecValue, RuntimeError>, st: InterpreterView) -> Result<
    Option<(SpecValue, InterpreterView)>,
    RuntimeError,
> {
    match r {
        Ok(v) => Ok(Some((v, st))),
        Err(e) => Err(e),
    }
}

/// What `tostr` gives for arguments other than one double.
pub open spec fn tostr_outcome(st: InterpreterView, args: Seq<Value>) -> Result<SpecValue, RuntimeError> {
    if args.len() != 1 {
        Err(RuntimeError::ArgumentCount)
    } else {
        match text_of(st, args[0]@) {
            Some(t) => Ok(SpecValue::String(t)),
            None => Err(RuntimeError::ArgumentKind),
        }
    }
}

/// What `len` gives.
pub open spec fn length_outcome(st: InterpreterView, args: Seq<Value>) -> Result<SpecValue, RuntimeError> {
    if args.len() != 1 {
        Err(RuntimeError::ArgumentCount)
    } else {
        match args[0]@ {
            SpecValue::Array(_, a) => if a < st.arrays.len() {
                Ok(SpecValue::Int(st.arrays[a as int].len() as i32))
            } else {
                Err(RuntimeError::DanglingReference)
            },
            _ => Err(RuntimeError::ArgumentKind),
        }
    }
}

/// What `assert` gives.
pub open spec fn assert_outcome(args: Seq<Value>) -> Result<SpecValue, RuntimeError> {
    if args.len() != 2 {
        Err(RuntimeError::ArgumentCount)
    } else {
        match (args[0]@, args[1]@) {
            (SpecValue::Bool(c), SpecValue::String(_)) => if c {
                Ok(SpecValue::Nothing)
            } else {
                Err(RuntimeError::AssertionFailed)
            },
            _ => Err(RuntimeError::ArgumentKind),
        }
    }
}

/// What `assert_eq` gives for arguments other than two doubles and a third.
pub open spec fn assert_eq_outcome(args: Seq<Value>) -> Result<SpecValue, RuntimeError> {
    if args.len() != 3 {
        Err(RuntimeError::ArgumentCount)
    } else if !(args[2]@ is String) {
        Err(RuntimeError::ArgumentKind)
    } else if values_equal(args[0]@, args[1]@) {
        Ok(SpecValue::Nothing)
    } else {
        Err(RuntimeError::AssertionFailed)
    }
}

/// What `abs` gives for arguments other than one double.
pub open spec fn abs_outcome(args: Seq<Value>) -> Result<SpecValue, RuntimeError> {
    if args.len() != 1 {
        Err(RuntimeError::ArgumentCount)
    } else {
        match args[0]@ {
            SpecValue::Int(i) => if i == i32::MIN {
                Err(RuntimeError::IntegerOverflow)
            } else {
                Ok(SpecValue::Int((if i < 0 { -(i as int) } else { i as int }) as i32))
            },
            _ => Err(RuntimeError::ArgumentKind),
        }
    }
}

/// What a call of the builtin `f` on `args` gives in this crate, with the state after it:
/// `None` for the calls made outside it (printing, reading a line, waiting, the clock, `floor`,
/// and `tostr` or `abs` of one double, `assert_eq` of two doubles).
pub open spec fn builtin_call_outcome(st: InterpreterView, f: StandardFunction, args: Seq<Value>) -> Result<
    Option<(SpecValue, InterpreterView)>,
    RuntimeError,
> {
    match f {
        StandardFunction::Tostr => if args.len() == 1 && args[0]@ is Double {
            Ok(None)
        } else {
            with_state(tostr_outcome(st, args), st)
        },
        StandardFunction::Len => with_state(length_outcome(st, args), st),
        StandardFunction::Assert => with_state(assert_outcome(args), st),
        StandardFunction::AssertEq => if args.len() == 3 && args[0]@ is Double && args[1]@ is Double {
            Ok(None)
        } else {
            with_state(assert_eq_outcome(args), st)
        },
        StandardFunction::Abs => if args.len() == 1 && args[0]@ is Double {
            Ok(None)
        } else {
            with_state(abs_outcome(args), st)
        },
        StandardFunction::Push => match push_outcome(st, values_view(args)) {
            Ok((v, st2)) => Ok(Some((v, st2))),
            Err(e) => Err(e),
        },
        StandardFunction::Pop => match pop_outcome(st, values_view(args)) {
            Ok((v, st2)) => Ok(Some((v, st2))),
            Err(e) => Err(e),
        },
        _ => Ok(None),
    }
}

impl StandardFunction {
    /// Calls this builtin on `args` (see `builtin_call_outcome`). On an error, no variable,
    /// array or function changes.
    pub fn try_call(&self, interp: &mut Interpreter, args: &Vec<Value>) -> (r: Result<BuiltinCall, RuntimeError>)
        ensures
            match builtin_call_outcome(old(interp)@, *self, args@) {
                Ok(None) => r is Ok && r.unwrap() is Outside && final(interp)@ == old(interp)@,
                Ok(Some((v, st))) => r is Ok && (r.unwrap() matches BuiltinCall::Done(x) && x@ == v)
                    && final(interp)@ == st,
                Err(e) => r == Err::<BuiltinCall, RuntimeError>(e) && final(interp)@.ctx == old(interp)@.ctx
                    && final(interp)@.arrays == old(interp)@.arrays
                    && final(interp)@.functions == old(interp)@.functions
                    && old(interp)@.types.submap_of(final(interp)@.types),
            },
    {
        proof {
            lemma_values_view_len(args@);
            if args.len() > 0 {
                lemma_values_view_index(args@, 0);
            }
        }
        let r = match self {
            StandardFunction::Tostr => {
                if args.len() == 1 && matches!(args[0], Value::Double(_)) {
                    return Ok(BuiltinCall::Outside);
                }
                try_tostr(interp, args)
            },
            StandardFunction::Len => try_length(interp, args),
            StandardFunction::Assert => try_assert_that(args),
            StandardFunction::AssertEq => {
                if args.len() == 3 && matches!(args[0], Value::Double(_)) && matches!(args[1], Value::Double(_)) {
                    return Ok(BuiltinCall::Outside);
                }
                try_assert_eq(args)
            },
            StandardFunction::Abs => {
                if args.len() == 1 && matches!(args[0], Value::Double(_)) {
                    return Ok(BuiltinCall::Outside);
                }
                try_abs(args)
            },
            StandardFunction::Push => try_push(interp, args),
            StandardFunction::Pop => try_pop(interp, args),
            _ => return Ok(BuiltinCall::Outside),
        };
        match r {
            Ok(v) => Ok(BuiltinCall::Done(v)),
            Err(e) => Err(e),
        }
    }

    /// Calls this builtin on `args` where `builtin_call_outcome` allows it.
    pub fn call(&self, interp: &mut Interpreter, args: &Vec<Value>) -> (r: BuiltinCall)
        requires
            builtin_call_outcome(old(interp)@, *self, args@) is Ok,
        ensures
            match builtin_call_outcome(old(interp)@, *self, args@)->Ok_0 {
                None => r is Outside && final(interp)@ == old(interp)@,
                Some((v, st)) => (r matches BuiltinCall::Done(x) && x@ == v) && final(interp)@ == st,
            },
    {
        self.try_call(interp, args).unwrap()
    }
}

} // verus!
