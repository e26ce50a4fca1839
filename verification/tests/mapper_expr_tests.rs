use jdm_engine::value::Value;
use jdm_engine::fields::{parse_path, read_path, write_path, FieldError, Seg};
use jdm_engine::expr::{eval_cond, eval_out, ExprError};
use jdm_engine::table::{DecisionTable, HitPolicy, Rule, TableField, evaluate_table};

fn path(s: &str) -> Vec<Seg> {
    parse_path(s).expect("path must parse")
}

#[test]
fn write_then_read_same_path_round_trips() {
    let ctx = Value::Obj(vec![]);
    let p = path("output.result");
    let written = write_path(ctx, &p, Value::Str("hello".to_string())).expect("write succeeds");
    let back = read_path(&written, &p).expect("read finds the value");
    assert!(back.eq_value(&Value::Str("hello".to_string())));
}

#[test]
fn write_auto_creates_missing_intermediate_mappings() {
    let ctx = Value::Obj(vec![]);
    let p = path("a.b.c");
    let written = write_path(ctx, &p, Value::Int(7)).expect("write succeeds");
    let back = read_path(&written, &p).expect("read finds the value");
    assert!(back.eq_value(&Value::Int(7)));
    // the intermediate object now exists
    let mid = read_path(&written, &path("a.b")).expect("intermediate exists");
    assert!(mid.eq_value(&Value::Obj(vec![("c".to_string(), Value::Int(7))])));
}

#[test]
fn reading_a_missing_path_is_no_value_not_an_error() {
    let ctx = Value::Obj(vec![("a".to_string(), Value::Int(1))]);
    assert!(read_path(&ctx, &path("a.b.c")).is_none());
    assert!(read_path(&ctx, &path("missing")).is_none());
}

#[test]
fn writing_through_a_scalar_is_a_type_mismatch() {
    let ctx = Value::Obj(vec![("a".to_string(), Value::Int(1))]);
    let err = write_path(ctx, &path("a.b"), Value::Int(2)).expect_err("must fail");
    assert_eq!(err, FieldError::TypeMismatch);
}

#[test]
fn array_indices_read_and_write() {
    let ctx = Value::Obj(vec![(
        "items".to_string(),
        Value::Arr(vec![
            Value::Obj(vec![("value".to_string(), Value::Int(5))]),
            Value::Obj(vec![("value".to_string(), Value::Int(6))]),
        ]),
    )]);
    let got = read_path(&ctx, &path("items[1].value")).expect("read succeeds");
    assert!(got.eq_value(&Value::Int(6)));
    let updated = write_path(ctx, &path("items[0].value"), Value::Int(50)).expect("write");
    let got = read_path(&updated, &path("items[0].value")).expect("read back");
    assert!(got.eq_value(&Value::Int(50)));
}

#[test]
fn out_of_range_index_write_is_a_type_mismatch() {
    let ctx = Value::Obj(vec![("items".to_string(), Value::Arr(vec![]))]);
    let err = write_path(ctx, &path("items[0]"), Value::Int(1)).expect_err("must fail");
    assert_eq!(err, FieldError::TypeMismatch);
}

#[test]
fn malformed_paths_are_rejected() {
    assert_eq!(parse_path("").unwrap_err(), FieldError::InvalidPath);
    assert_eq!(parse_path("1abc").unwrap_err(), FieldError::InvalidPath);
    assert_eq!(parse_path("a..b").unwrap_err(), FieldError::InvalidPath);
    assert_eq!(parse_path("a.").unwrap_err(), FieldError::InvalidPath);
    assert_eq!(parse_path("a[b]").unwrap_err(), FieldError::InvalidPath);
    assert_eq!(parse_path("a[1").unwrap_err(), FieldError::InvalidPath);
    assert_eq!(parse_path("a b").unwrap_err(), FieldError::InvalidPath);
    assert!(parse_path("a_1.b2[10].c").is_ok());
}

fn num_ctx(v: i64) -> Value {
    Value::Obj(vec![(
        "input".to_string(),
        Value::Obj(vec![("value".to_string(), Value::Int(v))]),
    )])
}

#[test]
fn conditions_compare_the_column_value() {
    let ctx = num_ctx(7);
    let col = Value::Int(7);
    assert_eq!(eval_cond("< 10", &col, &ctx), Ok(true));
    assert_eq!(eval_cond("> 10", &col, &ctx), Ok(false));
    assert_eq!(eval_cond("<= 7", &col, &ctx), Ok(true));
    assert_eq!(eval_cond(">= 8", &col, &ctx), Ok(false));
    assert_eq!(eval_cond("== 7", &col, &ctx), Ok(true));
    assert_eq!(eval_cond("!= 7", &col, &ctx), Ok(false));
    // a bare operand is an implicit equality test
    assert_eq!(eval_cond("7", &col, &ctx), Ok(true));
    assert_eq!(eval_cond("8", &col, &ctx), Ok(false));
    // an empty condition always holds
    assert_eq!(eval_cond("", &col, &ctx), Ok(true));
    assert_eq!(eval_cond("   ", &col, &ctx), Ok(true));
}

#[test]
fn conditions_may_name_both_operands() {
    let ctx = num_ctx(7);
    let col = Value::Null;
    assert_eq!(eval_cond("input.value < 10", &col, &ctx), Ok(true));
    assert_eq!(eval_cond("input.value == 7", &col, &ctx), Ok(true));
    assert_eq!(eval_cond("input.value > 10", &col, &ctx), Ok(false));
}

#[test]
fn evaluating_twice_gives_identical_results_and_no_mutation() {
    let ctx = num_ctx(7);
    let snapshot = ctx.duplicate();
    let col = Value::Int(7);
    let r1 = eval_cond("< 10", &col, &ctx);
    let r2 = eval_cond("< 10", &col, &ctx);
    assert_eq!(r1, r2);
    assert!(ctx.eq_value(&snapshot));
    let o1 = eval_out("input.value", &ctx).expect("eval");
    let o2 = eval_out("input.value", &ctx).expect("eval");
    assert!(o1.eq_value(&o2));
    assert!(ctx.eq_value(&snapshot));
}

#[test]
fn output_expressions_evaluate_literals_and_references() {
    let ctx = num_ctx(42);
    assert!(eval_out("\"text\"", &ctx).unwrap().eq_value(&Value::Str("text".to_string())));
    assert!(eval_out("17", &ctx).unwrap().eq_value(&Value::Int(17)));
    assert!(eval_out("-8", &ctx).unwrap().eq_value(&Value::Int(-8)));
    assert!(eval_out("true", &ctx).unwrap().eq_value(&Value::Bool(true)));
    assert!(eval_out("false", &ctx).unwrap().eq_value(&Value::Bool(false)));
    assert!(eval_out("null", &ctx).unwrap().eq_value(&Value::Null));
    assert!(eval_out("input.value", &ctx).unwrap().eq_value(&Value::Int(42)));
    // an absent reference reads as null
    assert!(eval_out("input.other", &ctx).unwrap().eq_value(&Value::Null));
}

#[test]
fn expression_parse_errors_are_reported() {
    let ctx = num_ctx(1);
    let col = Value::Int(1);
    assert_eq!(eval_cond("= 1", &col, &ctx), Err(ExprError::UnknownOperator));
    assert_eq!(eval_cond("! 1", &col, &ctx), Err(ExprError::UnknownOperator));
    assert_eq!(eval_cond("< ", &col, &ctx), Err(ExprError::ParseError));
    assert_eq!(eval_cond("\"open", &col, &ctx), Err(ExprError::ParseError));
    assert_eq!(eval_cond("< 10 extra", &col, &ctx), Err(ExprError::ParseError));
    assert_eq!(eval_out("1 2", &ctx).unwrap_err(), ExprError::ParseError);
}

#[test]
fn equality_works_on_strings_booleans_and_null() {
    let ctx = Value::Obj(vec![]);
    let s = Value::Str("abc".to_string());
    assert_eq!(eval_cond("== \"abc\"", &s, &ctx), Ok(true));
    assert_eq!(eval_cond("!= \"abc\"", &s, &ctx), Ok(false));
    let b = Value::Bool(true);
    assert_eq!(eval_cond("== true", &b, &ctx), Ok(true));
    let n = Value::Null;
    assert_eq!(eval_cond("== null", &n, &ctx), Ok(true));
    // ordering a string is a type error
    assert_eq!(eval_cond("< \"abc\"", &s, &ctx), Err(ExprError::TypeError));
}

#[test]
fn evaluate_table_leaves_context_unchanged_when_nothing_matches() {
    let t = DecisionTable {
        inputs: vec![TableField {
            id: "c".to_string(),
            field: "input.value".to_string(),
        }],
        outputs: vec![TableField {
            id: "result".to_string(),
            field: "output.result".to_string(),
        }],
        rules: vec![Rule {
            id: "r1".to_string(),
            conditions: vec![("c".to_string(), "> 100".to_string())],
            outputs: vec![("result".to_string(), "\"big\"".to_string())],
            priority: 0,
        }],
        hit_policy: HitPolicy::First,
    };
    let ctx = num_ctx(1);
    let snapshot = ctx.duplicate();
    let res = evaluate_table(&t, ctx).expect("no match is success");
    assert!(res.eq_value(&snapshot));
}
