use scorch::ast::Node;
use scorch::context::Context;
use scorch::interpreter::{Branch, CallPlan, Interpreter, LoopStep};
use scorch::standard_functions::{
    abs, assert_eq as check_eq, assert_that, get_builtin_function, get_function_signature,
    int_to_string, length, pop, print_text, push, tostr, try_abs, try_assert_eq, try_assert_that,
    try_length, try_pop, try_push, try_tostr, BuiltinCall, StandardFunction,
};
use scorch::tokens::TokenKind;
use scorch::typechecker::{Attr, Builtin, TypeChecker, Validator, builtin_name_string, registered_type_name};
use scorch::types::{Function, Instance, Parameter, RuntimeError, Value};

fn int_of(v: &Value) -> i32 {
    match v {
        Value::Int(i) => *i,
        other => panic!("not an integer: {:?}", other),
    }
}

fn bool_of(v: &Value) -> bool {
    match v {
        Value::Bool(b) => *b,
        other => panic!("not a boolean: {:?}", other),
    }
}

fn text_of(v: &Value) -> String {
    match v {
        Value::String(s) => s.clone(),
        other => panic!("not a string: {:?}", other),
    }
}

fn read(interp: &Interpreter, name: &str) -> Value {
    let r = interp.try_visit_identifier(name).unwrap();
    interp.try_eval_deref(r).unwrap()
}

#[test]
fn new_interpreter_knows_none() {
    let interp = Interpreter::new();
    assert!(matches!(read(&interp, "none"), Value::Nothing()));
    assert_eq!(interp.context.depth(), 1);
}

#[test]
fn declare_then_read() {
    let mut interp = Interpreter::new();
    interp.try_visit_declaration("x", "Int", Some(Value::Int(5)), true).unwrap();
    assert_eq!(int_of(&read(&interp, "x")), 5);
    assert!(matches!(interp.try_visit_identifier("x").unwrap(), Value::Reference(1)));
}

#[test]
fn declaration_errors() {
    let mut interp = Interpreter::new();
    interp.try_visit_declaration("x", "Int", Some(Value::Int(5)), true).unwrap();
    assert_eq!((interp.try_visit_declaration("x", "Int", Some(Value::Int(6)), true)).unwrap_err(), RuntimeError::Redefinition);
    assert_eq!((interp.try_visit_declaration("y", "Float", Some(Value::Int(6)), true)).unwrap_err(), RuntimeError::UnknownType);
    assert_eq!((interp.try_visit_declaration("y", "Int", Some(Value::Bool(true)), true)).unwrap_err(), RuntimeError::TypeMismatch);
    // none is admitted by every type
    interp.try_visit_declaration("y", "Int", None, true).unwrap();
    assert!(matches!(read(&interp, "y"), Value::Nothing()));
    assert_eq!(int_of(&read(&interp, "x")), 5);
}

#[test]
fn dynamic_admits_anything() {
    let mut interp = Interpreter::new();
    interp.try_visit_declaration("s", "Dynamic", Some(Value::String("a".to_string())), false).unwrap();
    assert_eq!(text_of(&read(&interp, "s")), "a");
}

#[test]
fn assignment_then_read() {
    let mut interp = Interpreter::new();
    interp.try_visit_declaration("x", "Int", Some(Value::Int(1)), true).unwrap();
    let target = interp.try_visit_identifier("x").unwrap();
    interp.try_visit_assignment(&target, &Value::Int(2)).unwrap();
    assert_eq!(int_of(&read(&interp, "x")), 2);
    assert_eq!((interp.try_visit_assignment(&target, &Value::Bool(false))).unwrap_err(), RuntimeError::TypeMismatch);
    assert_eq!(int_of(&read(&interp, "x")), 2);
    assert_eq!((interp.try_visit_assignment(&Value::Int(1), &Value::Int(3))).unwrap_err(), RuntimeError::ExpectedReference);
}

#[test]
fn constants_cannot_be_assigned() {
    let mut interp = Interpreter::new();
    interp.try_visit_declaration("c", "Int", Some(Value::Int(1)), false).unwrap();
    let target = interp.try_visit_identifier("c").unwrap();
    assert_eq!((interp.try_visit_assignment(&target, &Value::Int(2))).unwrap_err(), RuntimeError::AssignmentToConstant);
}

#[test]
fn assign_var_seeks_outer_scopes() {
    let mut interp = Interpreter::new();
    interp.try_visit_declaration("x", "Int", Some(Value::Int(1)), true).unwrap();
    interp.push_ctx();
    interp.try_assign_var("x", &Value::Int(7)).unwrap();
    interp.pop_ctx();
    assert_eq!(int_of(&read(&interp, "x")), 7);
    assert_eq!((interp.try_assign_var("nope", &Value::Int(1))).unwrap_err(), RuntimeError::UnknownVariable);
}

#[test]
fn scope_forgets_its_variables() {
    let mut interp = Interpreter::new();
    interp.push_ctx();
    assert_eq!(interp.context.depth(), 2);
    interp.try_visit_declaration("y", "Bool", Some(Value::Bool(true)), true).unwrap();
    assert!(bool_of(&read(&interp, "y")));
    interp.pop_ctx();
    assert_eq!((interp.try_visit_identifier("y")).unwrap_err(), RuntimeError::UnknownVariable);
}

#[test]
fn inner_scope_cannot_redeclare_an_outer_name() {
    let mut interp = Interpreter::new();
    interp.try_visit_declaration("x", "Int", Some(Value::Int(1)), true).unwrap();
    interp.push_ctx();
    assert_eq!((interp.try_visit_declaration("x", "Int", Some(Value::Int(2)), true)).unwrap_err(), RuntimeError::Redefinition);
}

#[test]
fn context_insert_find_and_overwrite() {
    let mut ctx = Context::new();
    assert_eq!(ctx.find_variable("a"), None);
    ctx.insert_variable("a", Instance::new(true, Value::Int(1), "Int".to_string()));
    assert_eq!(ctx.find_variable("a"), Some(0));
    ctx.push_scope();
    ctx.insert_variable("a", Instance::new(true, Value::Int(2), "Int".to_string()));
    assert_eq!(ctx.find_variable("a"), Some(1));
    ctx.seek_overwrite_in_parents("a", &Value::Int(3)).unwrap();
    assert_eq!(int_of(&ctx.instance(1).value), 3);
    assert_eq!(int_of(&ctx.instance(0).value), 1);
    ctx.pop_scope();
    assert_eq!(ctx.find_variable("a"), Some(0));
    assert_eq!(ctx.seek_overwrite_in_parents("b", &Value::Int(3)), Err(()));
    assert_eq!(ctx.slot_count(), 2);
}

#[test]
fn arrays_read_and_write() {
    let mut interp = Interpreter::new();
    let arr = interp.try_visit_array(3, &vec![Value::Int(1), Value::Int(2)], true, true).unwrap();
    assert!(matches!(arr, Value::Array(true, 0)));
    interp.try_visit_declaration("arr", "Array", Some(arr), false).unwrap();
    assert_eq!(int_of(&interp.try_access_array("arr", 1).unwrap()), 2);
    assert_eq!((interp.try_access_array("arr", 2)).unwrap_err(), RuntimeError::IndexOutOfBounds);
    interp.try_assign_to_array("arr", 0, &Value::Int(9)).unwrap();
    assert_eq!(int_of(&interp.try_access_array("arr", 0).unwrap()), 9);
    assert_eq!((interp.try_assign_to_array("arr", 0, &Value::Bool(true))).unwrap_err(), RuntimeError::TypeMismatch);
    assert_eq!((interp.try_access_array("nope", 0)).unwrap_err(), RuntimeError::UnknownVariable);
    interp.try_visit_declaration("n", "Int", Some(Value::Int(0)), false).unwrap();
    assert_eq!((interp.try_access_array("n", 0)).unwrap_err(), RuntimeError::ExpectedArray);
}

#[test]
fn immutable_arrays_refuse_writes() {
    let mut interp = Interpreter::new();
    let arr = interp.try_visit_array(1, &vec![Value::Int(1)], false, true).unwrap();
    interp.try_visit_declaration("arr", "Array", Some(arr), false).unwrap();
    assert_eq!((interp.try_assign_to_array("arr", 0, &Value::Int(2))).unwrap_err(), RuntimeError::ImmutableArray);
}

#[test]
fn array_literal_longer_than_its_capacity() {
    let mut interp = Interpreter::new();
    assert_eq!((interp.try_visit_array(1, &vec![Value::Int(1), Value::Int(2)], true, true)).unwrap_err(), RuntimeError::ArrayTooLong);
}

#[test]
fn integer_arithmetic() {
    assert_eq!(int_of(&Interpreter::bin_op_int(TokenKind::Add, 2, 3).unwrap()), 5);
    assert_eq!(int_of(&Interpreter::bin_op_int(TokenKind::Subtract, 2, 3).unwrap()), -1);
    assert_eq!(int_of(&Interpreter::bin_op_int(TokenKind::Multiply, -4, 3).unwrap()), -12);
    assert_eq!(int_of(&Interpreter::bin_op_int(TokenKind::Divide, 7, -2).unwrap()), -3);
    assert_eq!(int_of(&Interpreter::bin_op_int(TokenKind::Divide, -7, 2).unwrap()), -3);
    assert_eq!((Interpreter::bin_op_int(TokenKind::Divide, 7, 0)).unwrap_err(), RuntimeError::DivisionByZero);
    assert_eq!((Interpreter::bin_op_int(TokenKind::Add, i32::MAX, 1)).unwrap_err(), RuntimeError::IntegerOverflow);
    assert_eq!((Interpreter::bin_op_int(TokenKind::Divide, i32::MIN, -1)).unwrap_err(), RuntimeError::IntegerOverflow);
    assert_eq!((Interpreter::bin_op_int(TokenKind::Modulo, 7, 2)).unwrap_err(), RuntimeError::InvalidOperator);
}

#[test]
fn string_concatenation() {
    let r = Interpreter::bin_op_string(TokenKind::Add, &"ab".to_string(), &"cd".to_string()).unwrap();
    assert_eq!(text_of(&r), "abcd");
    assert_eq!((Interpreter::bin_op_string(TokenKind::Subtract, &"a".to_string(), &"b".to_string())).unwrap_err(), RuntimeError::InvalidOperator);
}

#[test]
fn relational_operations() {
    let t = |op, a: &Value, b: &Value| Interpreter::try_visit_relational_op(op, a, b);
    assert!(bool_of(&t(TokenKind::LeftAngle, &Value::Int(1), &Value::Int(2)).unwrap()));
    assert!(!bool_of(&t(TokenKind::GreaterThanEquals, &Value::Int(1), &Value::Int(2)).unwrap()));
    assert!(bool_of(&t(TokenKind::NotEquals, &Value::Int(1), &Value::Int(2)).unwrap()));
    assert!(bool_of(&t(TokenKind::Equals, &Value::Bool(true), &Value::Bool(true)).unwrap()));
    let a = Value::String("a".to_string());
    let b = Value::String("b".to_string());
    assert!(!bool_of(&t(TokenKind::Equals, &a, &b).unwrap()));
    assert!(bool_of(&t(TokenKind::NotEquals, &a, &b).unwrap()));
    assert_eq!((t(TokenKind::LeftAngle, &a, &b)).unwrap_err(), RuntimeError::InvalidOperator);
    assert_eq!((t(TokenKind::LeftAngle, &Value::Bool(true), &Value::Bool(false))).unwrap_err(), RuntimeError::InvalidOperator);
    assert_eq!((t(TokenKind::Equals, &Value::Int(1), &a)).unwrap_err(), RuntimeError::InvalidOperator);
}

#[test]
fn logical_operations() {
    let t = |op, a: bool, b: bool| Interpreter::try_visit_logical_op(op, &Value::Bool(a), &Value::Bool(b));
    assert!(!bool_of(&t(TokenKind::LogicalAnd, true, false).unwrap()));
    assert!(bool_of(&t(TokenKind::LogicalOr, true, false).unwrap()));
    assert_eq!((Interpreter::try_visit_logical_op(TokenKind::LogicalAnd, &Value::Int(1), &Value::Bool(true))).unwrap_err(), RuntimeError::InvalidOperator);
}

#[test]
fn binary_and_term_operations() {
    assert!(matches!(
        Interpreter::try_visit_binary_op(TokenKind::Period, &Value::Int(1), &Value::Int(2)).unwrap(),
        Value::Nothing()
    ));
    assert_eq!(int_of(&Interpreter::try_visit_binary_op(TokenKind::Add, &Value::Int(1), &Value::Int(2)).unwrap()), 3);
    let s = Interpreter::try_visit_binary_op(
        TokenKind::Add,
        &Value::String("x".to_string()),
        &Value::String("y".to_string()),
    )
    .unwrap();
    assert_eq!(text_of(&s), "xy");
    assert_eq!((Interpreter::try_visit_binary_op(TokenKind::Add, &Value::Int(1), &Value::Bool(true))).unwrap_err(), RuntimeError::InvalidOperator);
    assert_eq!((Interpreter::try_visit_binary_op(TokenKind::Modulo, &Value::Int(1), &Value::Int(2))).unwrap_err(), RuntimeError::InvalidOperator);
    assert_eq!(int_of(&Interpreter::try_visit_term_op(TokenKind::Multiply, &Value::Int(6), &Value::Int(7)).unwrap()), 42);
    assert_eq!((Interpreter::try_visit_term_op(TokenKind::Add, &Value::Int(6), &Value::Int(7))).unwrap_err(), RuntimeError::InvalidOperator);
}

#[test]
fn unary_operations() {
    assert!(!bool_of(&Interpreter::try_visit_not_op(&Value::Bool(true)).unwrap()));
    assert_eq!((Interpreter::try_visit_not_op(&Value::Int(1))).unwrap_err(), RuntimeError::ExpectedBoolean);
    assert_eq!(int_of(&Interpreter::try_visit_neg_op(&Value::Int(4)).unwrap()), -4);
    assert_eq!((Interpreter::try_visit_neg_op(&Value::Int(i32::MIN))).unwrap_err(), RuntimeError::IntegerOverflow);
    assert_eq!((Interpreter::try_visit_neg_op(&Value::String("a".to_string()))).unwrap_err(), RuntimeError::ExpectedNumber);
}

#[test]
fn typechecker_names_values() {
    let mut types = TypeChecker::new();
    let ctx = Context::new();
    assert_eq!(types.try_get_typename(&ctx, &Value::Int(1)).unwrap(), "Int");
    assert_eq!(types.try_get_typename(&ctx, &Value::Nothing()).unwrap(), "None");
    assert_eq!(types.try_get_typename(&ctx, &Value::Double(0)).unwrap(), "Double");
    assert_eq!(types.try_get_typename(&ctx, &Value::Array(true, 0)).unwrap(), "Array");
    assert_eq!(types.try_get_typename(&ctx, &Value::Function(0)).unwrap(), "Fn");
    assert_eq!((types.try_get_typename(&ctx, &Value::Return(None))).unwrap_err(), RuntimeError::ReturnHasNoType);
    assert_eq!((types.try_get_typename(&ctx, &Value::Reference(0))).unwrap_err(), RuntimeError::DanglingReference);
}

#[test]
fn tuple_type_names() {
    let mut types = TypeChecker::new();
    let ctx = Context::new();
    assert!(types.get("(,Int,Bool)").is_none());
    let name = types
        .try_get_tuple_typename(&ctx, &vec![Value::Int(1), Value::Bool(true)])
        .unwrap();
    assert_eq!(name, "(,Int,Bool)");
    let t = types.get("(,Int,Bool)").unwrap();
    assert_eq!(t.validator, Validator::TupleOnly);
    assert_eq!(types.try_get_tuple_typename(&ctx, &vec![Value::Int(1)]).unwrap(), "(Int)");
    assert_eq!(types.try_get_tuple_typename(&ctx, &vec![]).unwrap(), "()");
    let nested = Value::Tuple(vec![Value::Tuple(vec![Value::Int(1)]), Value::Bool(true)]);
    assert_eq!(types.try_get_typename(&ctx, &nested).unwrap(), "(,(Int),Bool)");
}

#[test]
fn references_are_followed_once() {
    let mut interp = Interpreter::new();
    interp.try_visit_declaration("b", "Bool", Some(Value::Bool(true)), true).unwrap();
    let r = interp.try_visit_identifier("b").unwrap();
    assert_eq!(interp.type_checker.try_get_typename(&interp.context, &r).unwrap(), "Bool");
    let (name, t) = interp.type_checker.try_from_value(&interp.context, &r).unwrap();
    assert_eq!(name, "Bool");
    assert_eq!(t.validator, Validator::BoolOnly);
}

#[test]
fn builtin_types_and_validation() {
    let types = TypeChecker::new();
    for (b, name) in [
        (Builtin::Nothing, "None"),
        (Builtin::Int, "Int"),
        (Builtin::Double, "Double"),
        (Builtin::Dynamic, "Dynamic"),
        (Builtin::Str, "String"),
        (Builtin::Bool, "Bool"),
        (Builtin::Array, "Array"),
        (Builtin::Fn, "Fn"),
    ] {
        assert_eq!(builtin_name_string(b), name);
        assert!(types.get(name).is_some());
    }
    assert_eq!(types.get("Array").unwrap().attribute, Attr::Array);
    assert_eq!(types.get("Fn").unwrap().attribute, Attr::Function);
    assert!(types.get("Int").unwrap().validate(&Value::Int(3)));
    assert!(!types.get("Int").unwrap().validate(&Value::Bool(true)));
    assert!(types.get("Dynamic").unwrap().validate(&Value::Tuple(vec![])));
    assert!(types.validate(&Instance::new(true, Value::Int(1), "Int".to_string())));
    assert!(!types.validate(&Instance::new(true, Value::Int(1), "Nope".to_string())));
}

#[test]
fn structs_and_parameters() {
    let mut types = TypeChecker::new();
    types.register_struct("Point");
    let t = types.get("Point").unwrap();
    assert_eq!(t.attribute, Attr::Struct);
    assert!(t.validate(&Value::Int(1)));
    let p = types.parameter("a", "Int").unwrap();
    assert_eq!(p.name, "a");
    assert_eq!(p.m_type, "Int");
    assert_eq!(types.parameter("a", "Nope").unwrap_err(), RuntimeError::UnknownType);
}

#[test]
fn functions_are_declared_without_parameters() {
    let mut interp = Interpreter::new();
    let params = vec![Parameter { name: "a".to_string(), m_type: "Int".to_string() }];
    interp.try_visit_function_decl("f", &params, Node::Block(vec![]), "Int", false).unwrap();
    assert!(matches!(read(&interp, "f"), Value::Function(0)));
    assert_eq!(interp.functions[0].params.len(), 0);
    assert_eq!(interp.try_prepare_call("f", &vec![]), Ok(CallPlan::Body { function: 0, bound: false }));
    assert_eq!((interp.try_prepare_call("f", &vec![Value::Int(1)])).unwrap_err(), RuntimeError::ArgumentCount);
    assert_eq!(interp.try_prepare_call("println", &vec![]), Ok(CallPlan::Builtin(StandardFunction::Println)));
    interp.try_visit_declaration("n", "Int", Some(Value::Int(1)), false).unwrap();
    assert_eq!((interp.try_prepare_call("n", &vec![])).unwrap_err(), RuntimeError::ExpectedFunction);
    let bad = vec![Parameter { name: "a".to_string(), m_type: "Nope".to_string() }];
    assert_eq!((interp.try_visit_function_decl("g", &bad, Node::Block(vec![]), "Int", false)).unwrap_err(), RuntimeError::UnknownType);
    assert_eq!((interp.try_visit_function_decl("g", &vec![], Node::Block(vec![]), "Nope", false)).unwrap_err(), RuntimeError::UnknownType);
}

#[test]
fn calls_bind_their_parameters() {
    let mut interp = Interpreter::new();
    interp.try_visit_function_decl("f", &vec![], Node::Block(vec![]), "Int", false).unwrap();
    interp.functions[0].params.push(Parameter { name: "a".to_string(), m_type: "Int".to_string() });
    assert_eq!((interp.try_prepare_call("f", &vec![Value::Bool(true)])).unwrap_err(), RuntimeError::TypeMismatch);
    assert_eq!(interp.context.depth(), 1);
    let plan = interp.try_prepare_call("f", &vec![Value::Int(4)]).unwrap();
    assert_eq!(plan, CallPlan::Body { function: 0, bound: true });
    assert_eq!(interp.context.depth(), 2);
    assert_eq!(int_of(&read(&interp, "a")), 4);
    let r = interp.finish_call(true, Value::Return(Some(Box::new(Value::Int(8)))));
    assert_eq!(int_of(&r), 8);
    assert_eq!(interp.context.depth(), 1);
    assert_eq!((interp.try_visit_identifier("a")).unwrap_err(), RuntimeError::UnknownVariable);
}

#[test]
fn call_results() {
    let mut interp = Interpreter::new();
    assert_eq!(int_of(&interp.finish_call(false, Value::Int(4))), 4);
    assert!(matches!(interp.finish_call(false, Value::Return(None)), Value::Nothing()));
    interp.push_ctx();
    assert!(matches!(interp.finish_call(true, Value::Int(4)), Value::Nothing()));
}

#[test]
fn loop_decisions() {
    assert_eq!(Interpreter::condition_value(&Value::Bool(true)), Ok(true));
    assert_eq!((Interpreter::condition_value(&Value::Int(1))).unwrap_err(), RuntimeError::ExpectedBoolean);
    assert_eq!(int_of(&Interpreter::repeat_exit(Value::Int(3)).unwrap()), 3);
    assert!(Interpreter::repeat_exit(Value::Nothing()).is_none());
    assert_eq!(
        int_of(&Interpreter::repeat_exit(Value::Return(Some(Box::new(Value::Int(5))))).unwrap()),
        5
    );
    assert!(matches!(Interpreter::repeat_exit(Value::Return(None)).unwrap(), Value::Return(None)));
    assert!(Interpreter::conditionless_exit(Value::Int(3)).is_none());
    assert!(matches!(Interpreter::conditionless_exit(Value::Return(None)).unwrap(), Value::Nothing()));
}

#[test]
fn decimal_text() {
    assert_eq!(int_to_string(0), "0");
    assert_eq!(int_to_string(42), "42");
    assert_eq!(int_to_string(-42), "-42");
    assert_eq!(int_to_string(i32::MIN), "-2147483648");
    assert_eq!(int_to_string(i32::MAX), "2147483647");
}

#[test]
fn function_signatures() {
    let f = Function {
        name: "add".to_string(),
        params: vec![
            Parameter { name: "a".to_string(), m_type: "Int".to_string() },
            Parameter { name: "b".to_string(), m_type: "Int".to_string() },
        ],
        body: Box::new(Node::Block(vec![])),
        return_type: "Int".to_string(),
        mutable: false,
    };
    assert_eq!(get_function_signature(&f), "add(a: Int, b: Int) -> Int");
    let g = Function {
        name: "g".to_string(),
        params: vec![],
        body: Box::new(Node::Block(vec![])),
        return_type: "None".to_string(),
        mutable: true,
    };
    assert_eq!(get_function_signature(&g), "g() -> None");
}

#[test]
fn tostr_of_values() {
    let mut interp = Interpreter::new();
    let t = |interp: &Interpreter, v: Value| text_of(&try_tostr(interp, &vec![v]).unwrap());
    assert_eq!(t(&interp, Value::Int(-7)), "-7");
    assert_eq!(t(&interp, Value::Bool(true)), "true");
    assert_eq!(t(&interp, Value::Bool(false)), "false");
    assert_eq!(t(&interp, Value::Nothing()), "None");
    assert_eq!(t(&interp, Value::String("s".to_string())), "s");
    interp.try_visit_function_decl("f", &vec![], Node::Block(vec![]), "Int", false).unwrap();
    assert_eq!(t(&interp, Value::Function(0)), "f() -> Int");
    let arr = interp.try_visit_array(2, &vec![Value::Int(1), Value::Int(2)], true, true).unwrap();
    assert_eq!(t(&interp, arr), "array : mutable , length : 2");
    let arr = interp.try_visit_array(0, &vec![], false, false).unwrap();
    assert_eq!(t(&interp, arr), "array : immutable , length : 0");
    assert_eq!((try_tostr(&interp, &vec![])).unwrap_err(), RuntimeError::ArgumentCount);
    assert_eq!((try_tostr(&interp, &vec![Value::Reference(0)])).unwrap_err(), RuntimeError::ArgumentKind);
}

#[test]
fn length_push_and_pop() {
    let mut interp = Interpreter::new();
    let arr = interp.try_visit_array(1, &vec![Value::Int(1)], true, true).unwrap();
    assert_eq!(int_of(&try_length(&interp, &vec![arr.duplicate()]).unwrap()), 1);
    let r = try_push(&mut interp, &vec![arr.duplicate(), Value::Int(2), Value::Bool(true)]).unwrap();
    assert!(matches!(r, Value::Array(true, 0)));
    assert_eq!(int_of(&try_length(&interp, &vec![arr.duplicate()]).unwrap()), 3);
    assert_eq!(interp.arrays[0][2].m_type, "Bool");
    assert!(bool_of(&try_pop(&mut interp, &vec![arr.duplicate()]).unwrap()));
    assert_eq!(int_of(&try_pop(&mut interp, &vec![arr.duplicate()]).unwrap()), 2);
    assert_eq!(int_of(&try_pop(&mut interp, &vec![arr.duplicate()]).unwrap()), 1);
    assert_eq!((try_pop(&mut interp, &vec![arr.duplicate()])).unwrap_err(), RuntimeError::EmptyArray);
    assert_eq!((try_push(&mut interp, &vec![arr.duplicate()])).unwrap_err(), RuntimeError::ArgumentCount);
    assert_eq!((try_push(&mut interp, &vec![Value::Int(1), Value::Int(2)])).unwrap_err(), RuntimeError::ExpectedArray);
    assert_eq!((try_length(&interp, &vec![Value::Int(1)])).unwrap_err(), RuntimeError::ArgumentKind);
    let fixed = interp.try_visit_array(1, &vec![Value::Int(1)], false, true).unwrap();
    assert_eq!((try_push(&mut interp, &vec![fixed.duplicate(), Value::Int(2)])).unwrap_err(), RuntimeError::ImmutableArray);
    assert_eq!((try_pop(&mut interp, &vec![fixed])).unwrap_err(), RuntimeError::ImmutableArray);
}

#[test]
fn pushed_value_pops_back() {
    let mut interp = Interpreter::new();
    let arr = interp.try_visit_array(0, &vec![], true, true).unwrap();
    try_push(&mut interp, &vec![arr.duplicate(), Value::String("v".to_string())]).unwrap();
    assert_eq!(text_of(&try_pop(&mut interp, &vec![arr.duplicate()]).unwrap()), "v");
    assert_eq!(int_of(&try_length(&interp, &vec![arr]).unwrap()), 0);
}

#[test]
fn assertions() {
    let msg = || Value::String("m".to_string());
    assert!(matches!(try_assert_that(&vec![Value::Bool(true), msg()]).unwrap(), Value::Nothing()));
    assert_eq!((try_assert_that(&vec![Value::Bool(false), msg()])).unwrap_err(), RuntimeError::AssertionFailed);
    assert_eq!((try_assert_that(&vec![Value::Int(1), msg()])).unwrap_err(), RuntimeError::ArgumentKind);
    assert_eq!((try_assert_that(&vec![Value::Bool(true)])).unwrap_err(), RuntimeError::ArgumentCount);
    assert!(try_assert_eq(&vec![Value::Int(1), Value::Int(1), msg()]).is_ok());
    assert!(try_assert_eq(&vec![Value::Nothing(), Value::Nothing(), msg()]).is_ok());
    assert!(try_assert_eq(&vec![Value::String("a".to_string()), Value::String("a".to_string()), msg()]).is_ok());
    assert_eq!((try_assert_eq(&vec![Value::Int(1), Value::Int(2), msg()])).unwrap_err(), RuntimeError::AssertionFailed);
    assert_eq!((try_assert_eq(&vec![Value::Int(1), Value::Bool(true), msg()])).unwrap_err(), RuntimeError::AssertionFailed);
    assert_eq!((try_assert_eq(&vec![Value::Int(1), Value::Int(1), Value::Int(1)])).unwrap_err(), RuntimeError::ArgumentKind);
    assert_eq!((try_assert_eq(&vec![Value::Int(1), Value::Int(1)])).unwrap_err(), RuntimeError::ArgumentCount);
}

#[test]
fn absolute_values() {
    assert_eq!(int_of(&try_abs(&vec![Value::Int(-3)]).unwrap()), 3);
    assert_eq!(int_of(&try_abs(&vec![Value::Int(3)]).unwrap()), 3);
    assert_eq!((try_abs(&vec![Value::Int(i32::MIN)])).unwrap_err(), RuntimeError::IntegerOverflow);
    assert_eq!((try_abs(&vec![Value::Bool(true)])).unwrap_err(), RuntimeError::ArgumentKind);
    assert_eq!((try_abs(&vec![])).unwrap_err(), RuntimeError::ArgumentCount);
}

#[test]
fn builtin_names() {
    assert_eq!(get_builtin_function("println"), Some(StandardFunction::Println));
    assert_eq!(get_builtin_function("assert_eq"), Some(StandardFunction::AssertEq));
    assert_eq!(get_builtin_function("len"), Some(StandardFunction::Len));
    assert_eq!(get_builtin_function("length"), None);
    assert_eq!(get_builtin_function(""), None);
}

#[test]
fn values_duplicate_with_their_contents() {
    let v = Value::Tuple(vec![Value::Int(1), Value::Return(Some(Box::new(Value::String("s".to_string()))))]);
    assert_eq!(format!("{:?}", v.duplicate()), format!("{:?}", v));
    assert_eq!(Value::Bool(true).as_bool(), Some(true));
    assert_eq!(Value::Int(1).as_bool(), None);
    assert_eq!(Value::String("q".to_string()).as_string().unwrap(), "q");
    assert!(Value::Int(1).as_string().is_none());
    let mut inst = Instance::new(true, Value::Int(1), "Int".to_string());
    inst.set_value(&Value::Int(2));
    assert_eq!(int_of(&inst.value), 2);
    assert_eq!(int_of(&inst.duplicate().value), 2);
}

#[test]
fn printed_text_of_values() {
    let mut interp = Interpreter::new();
    assert_eq!(print_text(&interp, &Value::Int(12)).unwrap(), "12\n");
    assert_eq!(print_text(&interp, &Value::Bool(false)).unwrap(), "false\n");
    assert_eq!(print_text(&interp, &Value::String("hi".to_string())).unwrap(), "hi\n");
    assert_eq!(print_text(&interp, &Value::Nothing()).unwrap(), "None");
    let arr = interp.try_visit_array(3, &vec![Value::Int(1), Value::Int(2), Value::Int(3)], false, false).unwrap();
    assert_eq!(print_text(&interp, &arr).unwrap(), "const Array<T> : length 3\n");
    let arr = interp.try_visit_array(0, &vec![], true, true).unwrap();
    assert_eq!(print_text(&interp, &arr).unwrap(), "var Array<T> : length 0\n");
    assert_eq!(print_text(&interp, &Value::Reference(0)).unwrap_err(), RuntimeError::ArgumentKind);
}

#[test]
fn structs_are_defined_and_built() {
    let mut interp = Interpreter::new();
    let fields = vec![
        Parameter { name: "x".to_string(), m_type: "Int".to_string() },
        Parameter { name: "tag".to_string(), m_type: "Dynamic".to_string() },
    ];
    interp.try_visit_struct_def("Point", &fields).unwrap();
    assert_eq!(interp.type_checker.get("Point").unwrap().attribute, Attr::Struct);
    let p = interp
        .try_visit_struct_init("Point", &vec![Value::Int(3), Value::String("a".to_string())])
        .unwrap();
    assert!(matches!(&p, Value::StructInstance { typename, fields: 0 } if typename == "Point"));
    assert_eq!(interp.type_checker.try_get_typename(&interp.context, &p).unwrap(), "Point");
    interp.try_visit_declaration("p", "Point", Some(p), false).unwrap();
    assert_eq!(int_of(&interp.struct_field("p", "x").unwrap()), 3);
    assert_eq!(text_of(&interp.struct_field("p", "tag").unwrap()), "a");
    assert_eq!(interp.struct_field("p", "y").unwrap_err(), RuntimeError::UnknownVariable);
    assert_eq!(interp.struct_field("none", "x").unwrap_err(), RuntimeError::ExpectedStruct);
    assert_eq!(print_text(&interp, &read(&interp, "p")).unwrap(), "global::Point\n");
}

#[test]
fn struct_construction_errors() {
    let mut interp = Interpreter::new();
    let fields = vec![Parameter { name: "x".to_string(), m_type: "Int".to_string() }];
    interp.try_visit_struct_def("P", &fields).unwrap();
    assert_eq!(interp.try_visit_struct_init("Q", &vec![]).unwrap_err(), RuntimeError::UnknownType);
    assert_eq!(interp.try_visit_struct_init("P", &vec![]).unwrap_err(), RuntimeError::ArgumentCount);
    assert_eq!(
        interp.try_visit_struct_init("P", &vec![Value::Bool(true)]).unwrap_err(),
        RuntimeError::TypeMismatch
    );
    let bad = vec![Parameter { name: "x".to_string(), m_type: "Nope".to_string() }];
    assert_eq!(interp.try_visit_struct_def("R", &bad), Err(RuntimeError::UnknownType));
    assert!(interp.type_checker.get("R").is_none());
}

#[test]
fn allowed_operations_give_their_values() {
    let mut interp = Interpreter::new();
    interp.visit_declaration("x", "Int", Some(Value::Int(5)), true);
    interp.assign_var("x", &Value::Int(6));
    assert_eq!(int_of(&read(&interp, "x")), 6);
    let arr = interp.try_visit_array(2, &vec![Value::Int(1), Value::Int(2)], true, true).unwrap();
    interp.visit_declaration("arr", "Array", Some(arr), false);
    assert_eq!(int_of(&interp.access_array("arr", 1)), 2);
    assert!(bool_of(&Interpreter::visit_relational_op(TokenKind::LeftAngle, &Value::Int(1), &Value::Int(2))));
    assert!(!bool_of(&Interpreter::visit_relational_op(
        TokenKind::Equals,
        &Value::String("a".to_string()),
        &Value::String("b".to_string())
    )));
}

#[test]
fn allowed_builtins_give_their_values() {
    let mut interp = Interpreter::new();
    assert_eq!(text_of(&tostr(&interp, &vec![Value::Int(-12)])), "-12");
    let msg = Value::String("m".to_string());
    assert!(matches!(assert_that(&vec![Value::Bool(true), msg.duplicate()]), Value::Nothing()));
    assert!(matches!(check_eq(&vec![Value::Int(2), Value::Int(2), msg]), Value::Nothing()));
    assert_eq!(int_of(&abs(&vec![Value::Int(-7)])), 7);
    let arr = interp.try_visit_array(1, &vec![Value::Int(1)], true, true).unwrap();
    push(&mut interp, &vec![arr.duplicate(), Value::Int(9)]);
    assert_eq!(int_of(&length(&interp, &vec![arr.duplicate()])), 2);
    assert_eq!(int_of(&pop(&mut interp, &vec![arr.duplicate()])), 9);
    assert_eq!(int_of(&length(&interp, &vec![arr])), 1);
}

#[test]
fn unknown_names_are_not_callable() {
    let mut interp = Interpreter::new();
    assert_eq!(interp.try_prepare_call("nothing_here", &vec![]), Err(RuntimeError::UnknownFunction));
    assert_eq!(interp.try_prepare_call("abs", &vec![]), Ok(CallPlan::Builtin(StandardFunction::Abs)));
    assert_eq!(interp.prepare_call("push", &vec![]), CallPlan::Builtin(StandardFunction::Push));
}

#[test]
fn method_calls_pass_the_receiver_first() {
    let mut interp = Interpreter::new();
    interp.try_visit_function_decl("f", &vec![], Node::Block(vec![]), "Int", false).unwrap();
    interp.functions[0].params.push(Parameter { name: "self".to_string(), m_type: "Int".to_string() });
    interp.functions[0].params.push(Parameter { name: "b".to_string(), m_type: "Bool".to_string() });
    assert_eq!(
        interp.try_prepare_method_call(&Value::Int(1), "f", &vec![]),
        Err(RuntimeError::ArgumentCount)
    );
    assert_eq!(
        interp.try_prepare_method_call(&Value::Bool(true), "f", &vec![Value::Bool(true)]),
        Err(RuntimeError::TypeMismatch)
    );
    let plan = interp.prepare_method_call(&Value::Int(3), "f", &vec![Value::Bool(false)]);
    assert_eq!(plan, CallPlan::Body { function: 0, bound: true });
    assert_eq!(int_of(&read(&interp, "self")), 3);
    assert!(!bool_of(&read(&interp, "b")));
}

#[test]
fn builtins_dispatch_by_name() {
    let mut interp = Interpreter::new();
    let f = get_builtin_function("abs").unwrap();
    match f.try_call(&mut interp, &vec![Value::Int(-4)]).unwrap() {
        BuiltinCall::Done(v) => assert_eq!(int_of(&v), 4),
        BuiltinCall::Outside => panic!("abs of an integer is computed here"),
    }
    assert!(matches!(f.try_call(&mut interp, &vec![Value::Double(2.5f64.to_bits())]), Ok(BuiltinCall::Outside)));
    assert_eq!(f.try_call(&mut interp, &vec![]).unwrap_err(), RuntimeError::ArgumentCount);
    let println = get_builtin_function("println").unwrap();
    assert!(matches!(println.try_call(&mut interp, &vec![Value::Int(1)]), Ok(BuiltinCall::Outside)));
    let assert_fn = get_builtin_function("assert").unwrap();
    let msg = Value::String("m".to_string());
    assert_eq!(
        assert_fn.try_call(&mut interp, &vec![Value::Bool(false), msg.duplicate()]).unwrap_err(),
        RuntimeError::AssertionFailed
    );
    assert!(matches!(assert_fn.call(&mut interp, &vec![Value::Bool(true), msg]), BuiltinCall::Done(Value::Nothing())));
    let arr = interp.try_visit_array(0, &vec![], true, true).unwrap();
    let push_fn = get_builtin_function("push").unwrap();
    push_fn.call(&mut interp, &vec![arr.duplicate(), Value::Int(6)]);
    let len_fn = get_builtin_function("len").unwrap();
    match len_fn.call(&mut interp, &vec![arr]) {
        BuiltinCall::Done(v) => assert_eq!(int_of(&v), 1),
        BuiltinCall::Outside => panic!("len is computed here"),
    }
}

#[test]
fn conditional_loop_restores_scopes() {
    let mut interp = Interpreter::new();
    assert!(matches!(interp.repeat_begin(), LoopStep::EvaluateCondition));
    assert_eq!(interp.context.depth(), 2);
    assert!(matches!(interp.repeat_on_condition(&Value::Bool(true)), LoopStep::RunBlock));
    assert_eq!(interp.context.depth(), 3);
    interp.try_visit_declaration("inner", "Int", Some(Value::Int(1)), true).unwrap();
    assert!(matches!(interp.repeat_after_block(Value::Nothing()), LoopStep::EvaluateCondition));
    assert_eq!(interp.context.depth(), 2);
    assert_eq!(interp.try_visit_identifier("inner").unwrap_err(), RuntimeError::UnknownVariable);
    assert_eq!(interp.try_repeat_on_condition(&Value::Int(1)).unwrap_err(), RuntimeError::ExpectedBoolean);
    assert_eq!(interp.context.depth(), 2);
    assert!(matches!(interp.repeat_on_condition(&Value::Bool(false)), LoopStep::Finished(Value::Nothing())));
    assert_eq!(interp.context.depth(), 1);
}

#[test]
fn loops_stop_on_their_exits() {
    let mut interp = Interpreter::new();
    interp.repeat_begin();
    interp.repeat_on_condition(&Value::Bool(true));
    match interp.repeat_after_block(Value::Int(7)) {
        LoopStep::Finished(v) => assert_eq!(int_of(&v), 7),
        _ => panic!("a plain value ends a conditional loop"),
    }
    let mut interp = Interpreter::new();
    assert!(matches!(interp.conditionless_begin(), LoopStep::RunBlock));
    assert!(matches!(interp.conditionless_after_block(Value::Int(7)), LoopStep::RunBlock));
    assert_eq!(interp.context.depth(), 2);
    match interp.conditionless_after_block(Value::Return(Some(Box::new(Value::Int(2))))) {
        LoopStep::Finished(v) => assert_eq!(int_of(&v), 2),
        _ => panic!("a return ends a loop"),
    }
    assert_eq!(interp.context.depth(), 1);
}

#[test]
fn allowed_steps_change_the_state() {
    let mut interp = Interpreter::new();
    interp.visit_declaration("x", "Int", Some(Value::Int(1)), true);
    let target = interp.visit_identifier("x");
    interp.visit_assignment(&target, &Value::Int(2));
    assert_eq!(int_of(&interp.eval_deref(target)), 2);
    let arr = interp.visit_array(2, &vec![Value::Int(1)], true, true);
    interp.visit_declaration("arr", "Array", Some(arr), false);
    interp.assign_to_array("arr", 0, &Value::Int(5));
    assert_eq!(int_of(&interp.access_array("arr", 0)), 5);
    assert!(bool_of(&Interpreter::visit_logical_op(TokenKind::LogicalOr, &Value::Bool(false), &Value::Bool(true))));
    assert_eq!(int_of(&Interpreter::visit_binary_op(TokenKind::Subtract, &Value::Int(2), &Value::Int(5))), -3);
    assert_eq!(int_of(&Interpreter::visit_term_op(TokenKind::Divide, &Value::Int(-7), &Value::Int(2))), -3);
    assert!(!bool_of(&Interpreter::visit_not_op(&Value::Bool(true))));
    assert_eq!(int_of(&Interpreter::visit_neg_op(&Value::Int(4))), -4);
    interp.visit_function_decl("f", &vec![], Node::Block(vec![]), "Int", false);
    assert!(matches!(read(&interp, "f"), Value::Function(0)));
    interp.visit_struct_def("P", &vec![Parameter { name: "x".to_string(), m_type: "Int".to_string() }]);
    let p = interp.visit_struct_init("P", &vec![Value::Int(8)]);
    interp.visit_declaration("p", "P", Some(p), false);
    assert_eq!(int_of(&interp.struct_field("p", "x").unwrap()), 8);
}

#[test]
fn types_of_values_that_have_them() {
    let ctx = Context::new();
    let mut types = TypeChecker::new();
    assert_eq!(types.get_typename(&ctx, &Value::Bool(true)), "Bool");
    assert_eq!(types.get_tuple_typename(&ctx, &vec![Value::Int(1), Value::Int(2)]), "(,Int,Int)");
    let (name, t) = types.from_value(&ctx, &Value::String("s".to_string()));
    assert_eq!(name, "String");
    assert_eq!(t.attribute, Attr::Value);
}

#[test]
fn written_type_names() {
    assert_eq!(registered_type_name("dynamic"), "Dynamic");
    assert_eq!(registered_type_name("num"), "Double");
    assert_eq!(registered_type_name("string"), "String");
    assert_eq!(registered_type_name("bool"), "Bool");
    assert_eq!(registered_type_name("int"), "Int");
    assert_eq!(registered_type_name("none"), "None");
    assert_eq!(registered_type_name("Point"), "Point");
    assert_eq!(registered_type_name("Int"), "Int");
}

#[test]
fn blocks_hand_returns_up() {
    assert!(Interpreter::block_exit(Value::Int(1)).is_none());
    assert!(matches!(Interpreter::block_exit(Value::Return(None)), Some(Value::Return(None))));
    match Interpreter::block_exit(Value::Return(Some(Box::new(Value::Int(3))))) {
        Some(Value::Return(Some(v))) => assert_eq!(int_of(&v), 3),
        other => panic!("a return is handed up as it is: {:?}", other),
    }
}

#[test]
fn branches_follow_their_conditions() {
    assert_eq!(Interpreter::choose_branch(Some(&Value::Bool(true)), false), Branch::Block);
    assert_eq!(Interpreter::choose_branch(Some(&Value::Bool(false)), true), Branch::Next);
    assert_eq!(Interpreter::choose_branch(Some(&Value::Bool(false)), false), Branch::Done);
    assert_eq!(Interpreter::choose_branch(None, true), Branch::Block);
    assert_eq!(Interpreter::try_choose_branch(Some(&Value::Int(1)), true), Err(RuntimeError::ExpectedBoolean));
}
