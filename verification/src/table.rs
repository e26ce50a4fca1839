//! The decision-table evaluator: rules matched in authored order against a
//! data context, and the matching rows' outputs merged into the context
//! according to the table's hit policy.

use vstd::prelude::*;
use crate::value::{Value, Model, arr_view};
use crate::fields::{FieldError, parse_path_spec, read_at, write_at, parse_path, read_path, write_path};
use crate::expr::{ExprError, eval_cond_spec, eval_out_spec, eval_cond, eval_out};

verus! {

/// An error raised while evaluating one decision-table node.
#[derive(Clone, Copy, Debug, PartialEq, Eq, Structural)]
pub enum EvalErrorKind {
    /// A field-mapper failure (bad path text, or a write into a scalar).
    FieldErr(FieldError),
    /// An expression failure (parse, unknown operator, or type error).
    ExprErr(ExprError),
    /// Two matching rules disagree on an output under the `Unique` policy.
    HitPolicyViolation,
}

/// How the outputs of several matching rules combine into one result.
#[derive(Clone, Copy, Debug, PartialEq, Eq, Structural)]
pub enum HitPolicy {
    /// Only the first matching rule, in authored order.
    First,
    /// Every matching rule; one list per output field, collapsed to the
    /// single value when exactly one rule matches.
    Collect,
    /// Every matching rule; one list per output field, in authored order.
    RuleOrder,
    /// Same merging as `RuleOrder`.
    OutputOrder,
    /// The matching rule with the smallest priority number; authored order
    /// breaks ties.
    Priority,
    /// Every matching rule must agree on each output field (ignoring
    /// nulls); the merged value is the shared one.
    Unique,
}

/// One input or output column: its id, and the context path it maps.
#[derive(Debug)]
pub struct TableField {
    pub id: String,
    pub field: String,
}

/// One rule row: per-input condition expressions and per-output value
/// expressions, both keyed by column id, and a priority number.
#[derive(Debug)]
pub struct Rule {
    pub id: String,
    pub conditions: Vec<(String, String)>,
    pub outputs: Vec<(String, String)>,
    pub priority: u64,
}

/// A decision table.
#[derive(Debug)]
pub struct DecisionTable {
    pub inputs: Vec<TableField>,
    pub outputs: Vec<TableField>,
    pub rules: Vec<Rule>,
    pub hit_policy: HitPolicy,
}

/// The first entry of `entries` at or after `k` whose key reads `key`.
pub open spec fn assoc_get_from(entries: Seq<(String, String)>, key: Seq<char>, k: int) -> Option<
    Seq<char>,
>
    decreases entries.len() - k,
{
    if k < 0 || k >= entries.len() {
        None
    } else if entries[k].0@ == key {
        Some(entries[k].1@)
    } else {
        assoc_get_from(entries, key, k + 1)
    }
}

/// The value a column's mapped path reads from the context; an absent
/// location reads as null, and a malformed path is an error.
pub open spec fn col_value_spec(ctx: Model, field: String) -> Result<Model, EvalErrorKind> {
    match parse_path_spec(field@) {
        Ok(p) => match read_at(ctx, p, 0) {
            Some(v) => Ok(v),
            None => Ok(Model::Null),
        },
        Err(e) => Err(EvalErrorKind::FieldErr(e)),
    }
}

/// Whether a rule matches: every input column whose condition is present
/// must evaluate to true; a column without a condition always passes.
/// Checks columns from `k` on.
pub open spec fn rule_matches_from(
    inputs: Seq<TableField>,
    conds: Seq<(String, String)>,
    ctx: Model,
    k: int,
) -> Result<bool, EvalErrorKind>
    decreases inputs.len() - k,
{
    if k < 0 || k >= inputs.len() {
        Ok(true)
    } else {
        match assoc_get_from(conds, inputs[k].id@, 0) {
            None => rule_matches_from(inputs, conds, ctx, k + 1),
            Some(txt) => match col_value_spec(ctx, inputs[k].field) {
                Err(e) => Err(e),
                Ok(cv) => match eval_cond_spec(txt, cv, ctx) {
                    Ok(true) => rule_matches_from(inputs, conds, ctx, k + 1),
                    Ok(false) => Ok(false),
                    Err(e) => Err(EvalErrorKind::ExprErr(e)),
                },
            },
        }
    }
}

/// The authored-order indices of the rules from `k` on that match `ctx`.
pub open spec fn matches_from(t: DecisionTable, ctx: Model, k: int) -> Result<
    Seq<int>,
    EvalErrorKind,
>
    decreases t.rules.len() - k,
{
    if k < 0 || k >= t.rules.len() {
        Ok(Seq::empty())
    } else {
        match rule_matches_from(t.inputs@, t.rules[k].conditions@, ctx, 0) {
            Err(e) => Err(e),
            Ok(true) => match matches_from(t, ctx, k + 1) {
                Ok(rest) => Ok(seq![k] + rest),
                Err(e) => Err(e),
            },
            Ok(false) => matches_from(t, ctx, k + 1),
        }
    }
}

/// The value a matched rule produces for the output column `out_id`: the
/// column's expression evaluated against the pre-rule context, or null when
/// the rule gives the column no expression.
pub open spec fn rule_output_spec(r: Rule, out_id: Seq<char>, ctx0: Model) -> Result<
    Model,
    EvalErrorKind,
> {
    match assoc_get_from(r.outputs@, out_id, 0) {
        None => Ok(Model::Null),
        Some(txt) => match eval_out_spec(txt, ctx0) {
            Ok(v) => Ok(v),
            Err(e) => Err(EvalErrorKind::ExprErr(e)),
        },
    }
}

/// Writes one matched rule's outputs into `acc`, column by column from `j`
/// on; expressions read the pre-rule context `ctx0`.
pub open spec fn apply_scalar_outputs(
    outs: Seq<TableField>,
    r: Rule,
    ctx0: Model,
    acc: Model,
    j: int,
) -> Result<Model, EvalErrorKind>
    decreases outs.len() - j,
{
    if j < 0 || j >= outs.len() {
        Ok(acc)
    } else {
        match rule_output_spec(r, outs[j].id@, ctx0) {
            Err(e) => Err(e),
            Ok(v) => match parse_path_spec(outs[j].field@) {
                Err(e) => Err(EvalErrorKind::FieldErr(e)),
                Ok(p) => match write_at(acc, p, 0, v) {
                    Err(e) => Err(EvalErrorKind::FieldErr(e)),
                    Ok(nc) => apply_scalar_outputs(outs, r, ctx0, nc, j + 1),
                },
            },
        }
    }
}

/// The matching rule with the smallest priority number among `m[k..]`;
/// earlier authored order breaks ties.
pub open spec fn best_from(rules: Seq<Rule>, m: Seq<int>, k: int) -> int
    decreases m.len() - k,
{
    if k < 0 || k >= m.len() - 1 {
        m[k]
    } else {
        let b = best_from(rules, m, k + 1);
        if rules[b].priority < rules[m[k]].priority {
            b
        } else {
            m[k]
        }
    }
}

/// The outputs of the matching rules `m[k..]` for the output column
/// `out_id`, in authored order, one value per match.
pub open spec fn collect_vals(
    rules: Seq<Rule>,
    m: Seq<int>,
    k: int,
    out_id: Seq<char>,
    ctx0: Model,
) -> Result<Seq<Model>, EvalErrorKind>
    decreases m.len() - k,
{
    if k < 0 || k >= m.len() {
        Ok(Seq::empty())
    } else {
        match rule_output_spec(rules[m[k]], out_id, ctx0) {
            Err(e) => Err(e),
            Ok(v) => match collect_vals(rules, m, k + 1, out_id, ctx0) {
                Ok(rest) => Ok(seq![v] + rest),
                Err(e) => Err(e),
            },
        }
    }
}

/// The collected list pairs the matches one to one, in order: its length is
/// the number of matches and its `i`-th element is the output of the `i`-th
/// matching rule.
pub proof fn lemma_collect_vals(
    rules: Seq<Rule>,
    m: Seq<int>,
    k: int,
    out_id: Seq<char>,
    ctx0: Model,
)
    requires
        0 <= k <= m.len(),
    ensures
        match collect_vals(rules, m, k, out_id, ctx0) {
            Ok(vals) => {
                &&& vals.len() == m.len() - k
                &&& forall|i: int|
                    0 <= i < vals.len() ==> rule_output_spec(rules[m[k + i]], out_id, ctx0)
                        == Ok::<_, EvalErrorKind>(#[trigger] vals[i])
            },
            Err(_) => true,
        },
    decreases m.len() - k,
{
    if k < m.len() {
        lemma_collect_vals(rules, m, k + 1, out_id, ctx0);
        match rule_output_spec(rules[m[k]], out_id, ctx0) {
            Ok(v) => {
                match collect_vals(rules, m, k + 1, out_id, ctx0) {
                    Ok(rest) => {
                        let vals = seq![v] + rest;
                        assert forall|i: int| 0 <= i < vals.len() implies rule_output_spec(
                            rules[m[k + i]],
                            out_id,
                            ctx0,
                        ) == Ok::<_, EvalErrorKind>(#[trigger] vals[i]) by {
                            if i > 0 {
                                assert(vals[i] == rest[i - 1]);
                            }
                        }
                    },
                    Err(_) => {},
                }
            },
            Err(_) => {},
        }
    }
}

/// Whether every pair of non-null values in `vals` is equal.
pub open spec fn vals_agree(vals: Seq<Model>) -> bool {
    forall|i: int, j: int|
        0 <= i < vals.len() && 0 <= j < vals.len() && #[trigger] vals[i] != Model::Null
            && #[trigger] vals[j] != Model::Null ==> vals[i] == vals[j]
}

/// The first non-null value of `vals`, or null when there is none.
pub open spec fn first_non_null(vals: Seq<Model>) -> Model
    decreases vals.len(),
{
    if vals.len() == 0 {
        Model::Null
    } else if vals[0] != Model::Null {
        vals[0]
    } else {
        first_non_null(vals.drop_first())
    }
}

/// Merges the values one output column collected under the `Unique`
/// policy: all non-null values must agree; the result is the shared value,
/// or null when every match produced null.
pub open spec fn unique_merge(vals: Seq<Model>) -> Result<Model, EvalErrorKind> {
    if vals_agree(vals) {
        Ok(first_non_null(vals))
    } else {
        Err(EvalErrorKind::HitPolicyViolation)
    }
}

/// The `Unique` merge fails exactly on disagreement: two differing
/// non-null values for the same output column are a hit-policy violation,
/// and matches that all produce one value yield that value.
pub proof fn lemma_unique_merge(vals: Seq<Model>)
    ensures
        (exists|i: int, j: int|
            0 <= i < vals.len() && 0 <= j < vals.len() && #[trigger] vals[i] != Model::Null
                && #[trigger] vals[j] != Model::Null && vals[i] != vals[j]) ==> unique_merge(vals)
            == Err::<Model, _>(EvalErrorKind::HitPolicyViolation),
        (vals.len() > 0 && vals[0] != Model::Null && (forall|i: int|
            0 <= i < vals.len() ==> #[trigger] vals[i] == vals[0])) ==> unique_merge(vals) == Ok::<
            _,
            EvalErrorKind,
        >(vals[0]),
{
}

/// The merged value an output column takes under a list policy: the list
/// of every match's value, collapsed to the single value when asked and
/// exactly one rule matched.
pub open spec fn list_value(vals: Seq<Model>, collapse: bool) -> Model {
    if collapse && vals.len() == 1 {
        vals[0]
    } else {
        Model::Arr(vals)
    }
}

/// Writes the list-policy outputs into `acc`, column by column from `j` on.
pub open spec fn apply_list_outputs(
    outs: Seq<TableField>,
    rules: Seq<Rule>,
    m: Seq<int>,
    ctx0: Model,
    acc: Model,
    j: int,
    collapse: bool,
) -> Result<Model, EvalErrorKind>
    decreases outs.len() - j,
{
    if j < 0 || j >= outs.len() {
        Ok(acc)
    } else {
        match collect_vals(rules, m, 0, outs[j].id@, ctx0) {
            Err(e) => Err(e),
            Ok(vals) => match parse_path_spec(outs[j].field@) {
                Err(e) => Err(EvalErrorKind::FieldErr(e)),
                Ok(p) => match write_at(acc, p, 0, list_value(vals, collapse)) {
                    Err(e) => Err(EvalErrorKind::FieldErr(e)),
                    Ok(nc) => apply_list_outputs(outs, rules, m, ctx0, nc, j + 1, collapse),
                },
            },
        }
    }
}

/// Writes the `Unique`-policy outputs into `acc`, column by column from
/// `j` on.
pub open spec fn apply_unique_outputs(
    outs: Seq<TableField>,
    rules: Seq<Rule>,
    m: Seq<int>,
    ctx0: Model,
    acc: Model,
    j: int,
) -> Result<Model, EvalErrorKind>
    decreases outs.len() - j,
{
    if j < 0 || j >= outs.len() {
        Ok(acc)
    } else {
        match collect_vals(rules, m, 0, outs[j].id@, ctx0) {
            Err(e) => Err(e),
            Ok(vals) => match unique_merge(vals) {
                Err(e) => Err(e),
                Ok(v) => match parse_path_spec(outs[j].field@) {
                    Err(e) => Err(EvalErrorKind::FieldErr(e)),
                    Ok(p) => match write_at(acc, p, 0, v) {
                        Err(e) => Err(EvalErrorKind::FieldErr(e)),
                        Ok(nc) => apply_unique_outputs(outs, rules, m, ctx0, nc, j + 1),
                    },
                },
            },
        }
    }
}

/// Evaluates a decision table against a context: collects the matching
/// rules in authored order and merges their outputs into the context
/// according to the hit policy. No match leaves the context unchanged and
/// is not an error.
pub open spec fn eval_table_spec(t: DecisionTable, ctx: Model) -> Result<Model, EvalErrorKind> {
    match matches_from(t, ctx, 0) {
        Err(e) => Err(e),
        Ok(m) => if m.len() == 0 {
            Ok(ctx)
        } else {
            match t.hit_policy {
                HitPolicy::First => apply_scalar_outputs(t.outputs@, t.rules[m[0]], ctx, ctx, 0),
                HitPolicy::Priority => apply_scalar_outputs(
                    t.outputs@,
                    t.rules[best_from(t.rules@, m, 0)],
                    ctx,
                    ctx,
                    0,
                ),
                HitPolicy::RuleOrder => apply_list_outputs(t.outputs@, t.rules@, m, ctx, ctx, 0, false),
                HitPolicy::OutputOrder => apply_list_outputs(
                    t.outputs@,
                    t.rules@,
                    m,
                    ctx,
                    ctx,
                    0,
                    false,
                ),
                HitPolicy::Collect => apply_list_outputs(t.outputs@, t.rules@, m, ctx, ctx, 0, true),
                HitPolicy::Unique => apply_unique_outputs(t.outputs@, t.rules@, m, ctx, ctx, 0),
            }
        },
    }
}

/// Under the `RuleOrder` policy, a table with one output column that
/// evaluates successfully writes, at that column's path, the ordered list
/// of the matching rules' values: its length is the number of matches and
/// its `i`-th element is what the `i`-th matching rule produced.
pub proof fn lemma_rule_order_writes_ordered_list(t: DecisionTable, ctx: Model)
    requires
        t.hit_policy == HitPolicy::RuleOrder,
        t.outputs@.len() == 1,
        matches_from(t, ctx, 0) is Ok,
        matches_from(t, ctx, 0)->Ok_0.len() > 0,
        eval_table_spec(t, ctx) is Ok,
    ensures
        collect_vals(t.rules@, matches_from(t, ctx, 0)->Ok_0, 0, t.outputs@[0].id@, ctx) is Ok,
        parse_path_spec(t.outputs@[0].field@) is Ok,
        ({
            let m = matches_from(t, ctx, 0)->Ok_0;
            let vals = collect_vals(t.rules@, m, 0, t.outputs@[0].id@, ctx)->Ok_0;
            let p = parse_path_spec(t.outputs@[0].field@)->Ok_0;
            &&& vals.len() == m.len()
            &&& (forall|i: int|
                0 <= i < vals.len() ==> rule_output_spec(t.rules@[m[i]], t.outputs@[0].id@, ctx)
                    == Ok::<_, EvalErrorKind>(#[trigger] vals[i]))
            &&& read_at(eval_table_spec(t, ctx)->Ok_0, p, 0) == Some(Model::Arr(vals))
        }),
{
    let m = matches_from(t, ctx, 0)->Ok_0;
    let step = apply_list_outputs(t.outputs@, t.rules@, m, ctx, ctx, 0, false);
    assert(eval_table_spec(t, ctx) == step);
    match collect_vals(t.rules@, m, 0, t.outputs@[0].id@, ctx) {
        Err(e) => {
            assert(step == Err::<Model, _>(e));
            assert(false);
        },
        Ok(vals) => {
            lemma_collect_vals(t.rules@, m, 0, t.outputs@[0].id@, ctx);
            assert(list_value(vals, false) == Model::Arr(vals));
            match parse_path_spec(t.outputs@[0].field@) {
                Err(e) => {
                    assert(step == Err::<Model, _>(EvalErrorKind::FieldErr(e)));
                    assert(false);
                },
                Ok(p) => {
                    match write_at(ctx, p, 0, Model::Arr(vals)) {
                        Err(e) => {
                            assert(step == Err::<Model, _>(EvalErrorKind::FieldErr(e)));
                            assert(false);
                        },
                        Ok(nc) => {
                            assert(apply_list_outputs(
                                t.outputs@,
                                t.rules@,
                                m,
                                ctx,
                                nc,
                                1,
                                false,
                            ) == Ok::<_, EvalErrorKind>(nc));
                            assert(step == Ok::<_, EvalErrorKind>(nc));
                            crate::fields::lemma_write_read_round_trip(
                                ctx,
                                p,
                                0,
                                Model::Arr(vals),
                            );
                        },
                    }
                },
            }
        },
    }
}

/// A table where no rule matches succeeds and writes nothing: the context
/// comes back unchanged.
pub proof fn lemma_no_match_is_identity(t: DecisionTable, ctx: Model)
    requires
        matches_from(t, ctx, 0) == Ok::<_, EvalErrorKind>(Seq::<int>::empty()),
    ensures
        eval_table_spec(t, ctx) == Ok::<_, EvalErrorKind>(ctx),
{
}

/// Pointwise `int` view of a vector of indices.
pub open spec fn idxs_view(v: Seq<usize>) -> Seq<int> {
    v.map_values(|x: usize| x as int)
}

/// Looks up the first entry of `entries` at or after `k` bound to `key`.
fn assoc_get_x<'a>(entries: &'a Vec<(String, String)>, key: &String, k: usize) -> (res: Option<
    &'a String,
>)
    requires
        k <= entries.len(),
    ensures
        match res {
            Some(v) => assoc_get_from(entries@, key@, k as int) == Some(v@),
            None => assoc_get_from(entries@, key@, k as int) is None,
        },
    decreases entries.len() - k,
{
    if k == entries.len() {
        return None;
    }
    if entries[k].0 == *key {
        Some(&entries[k].1)
    } else {
        assoc_get_x(entries, key, k + 1)
    }
}

/// Reads a column's mapped path, as [`col_value_spec`] describes.
fn col_value_x(ctx: &Value, field: &String) -> (res: Result<Value, EvalErrorKind>)
    ensures
        match res {
            Ok(v) => col_value_spec(ctx@, *field) == Ok::<_, EvalErrorKind>(v@),
            Err(e) => col_value_spec(ctx@, *field) == Err::<Model, _>(e),
        },
{
    match parse_path(field.as_str()) {
        Ok(p) => match read_path(ctx, &p) {
            Some(v) => Ok(v),
            None => Ok(Value::Null),
        },
        Err(e) => Err(EvalErrorKind::FieldErr(e)),
    }
}

/// Checks a rule's conditions from input column `k` on, as
/// [`rule_matches_from`] describes.
fn rule_matches_x(
    inputs: &Vec<TableField>,
    conds: &Vec<(String, String)>,
    ctx: &Value,
    k: usize,
) -> (res: Result<bool, EvalErrorKind>)
    requires
        k <= inputs.len(),
    ensures
        res == rule_matches_from(inputs@, conds@, ctx@, k as int),
    decreases inputs.len() - k,
{
    if k == inputs.len() {
        return Ok(true);
    }
    match assoc_get_x(conds, &inputs[k].id, 0) {
        None => rule_matches_x(inputs, conds, ctx, k + 1),
        Some(txt) => match col_value_x(ctx, &inputs[k].field) {
            Err(e) => Err(e),
            Ok(cv) => match eval_cond(txt.as_str(), &cv, ctx) {
                Ok(true) => rule_matches_x(inputs, conds, ctx, k + 1),
                Ok(false) => Ok(false),
                Err(e) => Err(EvalErrorKind::ExprErr(e)),
            },
        },
    }
}

/// Collects the indices of the matching rules from `k` on, as
/// [`matches_from`] describes.
fn matches_x(t: &DecisionTable, ctx: &Value, k: usize) -> (res: Result<Vec<usize>, EvalErrorKind>)
    requires
        k <= t.rules.len(),
    ensures
        match res {
            Ok(v) => {
                &&& matches_from(*t, ctx@, k as int) == Ok::<_, EvalErrorKind>(idxs_view(v@))
                &&& forall|i: int| 0 <= i < v@.len() ==> (#[trigger] v@[i]) < t.rules.len()
            },
            Err(e) => matches_from(*t, ctx@, k as int) == Err::<Seq<int>, _>(e),
        },
    decreases t.rules.len() - k,
{
    if k == t.rules.len() {
        let v: Vec<usize> = Vec::new();
        proof {
            assert(idxs_view(v@) =~= Seq::<int>::empty());
        }
        return Ok(v);
    }
    match rule_matches_x(&t.inputs, &t.rules[k].conditions, ctx, 0) {
        Err(e) => Err(e),
        Ok(true) => match matches_x(t, ctx, k + 1) {
            Ok(mut rest) => {
                let ghost r0 = rest@;
                rest.insert(0, k);
                proof {
                    assert(idxs_view(rest@) =~= seq![k as int] + idxs_view(r0));
                }
                Ok(rest)
            },
            Err(e) => Err(e),
        },
        Ok(false) => matches_x(t, ctx, k + 1),
    }
}

/// One rule's value for one output column, as [`rule_output_spec`]
/// describes.
fn rule_output_x(r: &Rule, out_id: &String, ctx0: &Value) -> (res: Result<Value, EvalErrorKind>)
    ensures
        match res {
            Ok(v) => rule_output_spec(*r, out_id@, ctx0@) == Ok::<_, EvalErrorKind>(v@),
            Err(e) => rule_output_spec(*r, out_id@, ctx0@) == Err::<Model, _>(e),
        },
{
    match assoc_get_x(&r.outputs, out_id, 0) {
        None => Ok(Value::Null),
        Some(txt) => match eval_out(txt.as_str(), ctx0) {
            Ok(v) => Ok(v),
            Err(e) => Err(EvalErrorKind::ExprErr(e)),
        },
    }
}

/// Writes one rule's outputs column by column, as [`apply_scalar_outputs`]
/// describes.
fn apply_scalar_x(outs: &Vec<TableField>, r: &Rule, ctx0: &Value, acc: Value, j: usize) -> (res:
    Result<Value, EvalErrorKind>)
    requires
        j <= outs.len(),
    ensures
        match res {
            Ok(v) => apply_scalar_outputs(outs@, *r, ctx0@, acc@, j as int) == Ok::<
                _,
                EvalErrorKind,
            >(v@),
            Err(e) => apply_scalar_outputs(outs@, *r, ctx0@, acc@, j as int) == Err::<Model, _>(e),
        },
    decreases outs.len() - j,
{
    if j == outs.len() {
        return Ok(acc);
    }
    match rule_output_x(r, &outs[j].id, ctx0) {
        Err(e) => Err(e),
        Ok(v) => match parse_path(outs[j].field.as_str()) {
            Err(e) => Err(EvalErrorKind::FieldErr(e)),
            Ok(p) => match write_path(acc, &p, v) {
                Err(e) => Err(EvalErrorKind::FieldErr(e)),
                Ok(nc) => apply_scalar_x(outs, r, ctx0, nc, j + 1),
            },
        },
    }
}

/// Picks the best-priority match, as [`best_from`] describes.
fn best_from_x(rules: &Vec<Rule>, m: &Vec<usize>, k: usize) -> (res: usize)
    requires
        k < m.len(),
        forall|i: int| 0 <= i < m@.len() ==> (#[trigger] m@[i]) < rules.len(),
    ensures
        res as int == best_from(rules@, idxs_view(m@), k as int),
        res < rules.len(),
    decreases m.len() - k,
{
    if k == m.len() - 1 {
        return m[k];
    }
    let b = best_from_x(rules, m, k + 1);
    if rules[b].priority < rules[m[k]].priority {
        b
    } else {
        m[k]
    }
}

/// Collects the matches' values for one output column, as [`collect_vals`]
/// describes.
fn collect_vals_x(
    rules: &Vec<Rule>,
    m: &Vec<usize>,
    k: usize,
    out_id: &String,
    ctx0: &Value,
) -> (res: Result<Vec<Value>, EvalErrorKind>)
    requires
        k <= m.len(),
        forall|i: int| 0 <= i < m@.len() ==> (#[trigger] m@[i]) < rules.len(),
    ensures
        match res {
            Ok(v) => collect_vals(rules@, idxs_view(m@), k as int, out_id@, ctx0@) == Ok::<
                _,
                EvalErrorKind,
            >(arr_view(v@)),
            Err(e) => collect_vals(rules@, idxs_view(m@), k as int, out_id@, ctx0@) == Err::<
                Seq<Model>,
                _,
            >(e),
        },
    decreases m.len() - k,
{
    if k == m.len() {
        let v: Vec<Value> = Vec::new();
        proof {
            crate::value::lemma_arr_view(v@);
            assert(arr_view(v@) =~= Seq::<Model>::empty());
        }
        return Ok(v);
    }
    match rule_output_x(&rules[m[k]], out_id, ctx0) {
        Err(e) => Err(e),
        Ok(v) => match collect_vals_x(rules, m, k + 1, out_id, ctx0) {
            Ok(mut rest) => {
                let ghost r0 = rest@;
                rest.insert(0, v);
                proof {
                    crate::value::lemma_arr_view(r0);
                    crate::value::lemma_arr_view(rest@);
                    assert(arr_view(rest@) =~= seq![rest@[0]@] + arr_view(r0));
                }
                Ok(rest)
            },
            Err(e) => Err(e),
        },
    }
}

/// The first non-null value skips exactly the leading nulls.
proof fn lemma_first_non_null_at(vals: Seq<Model>, f: int)
    requires
        0 <= f <= vals.len(),
        forall|j: int| 0 <= j < f ==> vals[j] == Model::Null,
    ensures
        f == vals.len() ==> first_non_null(vals) == Model::Null,
        f < vals.len() && vals[f] != Model::Null ==> first_non_null(vals) == vals[f],
    decreases f,
{
    if f > 0 {
        assert(vals[0] == Model::Null);
        assert(forall|j: int|
            0 <= j < vals.len() - 1 ==> vals.drop_first()[j] == vals[j + 1]);
        lemma_first_non_null_at(vals.drop_first(), f - 1);
    }
}

/// Merges one output column's collected values under the `Unique` policy,
/// as [`unique_merge`] describes.
fn unique_merge_x(vals: &Vec<Value>) -> (res: Result<Value, EvalErrorKind>)
    ensures
        match res {
            Ok(v) => unique_merge(arr_view(vals@)) == Ok::<_, EvalErrorKind>(v@),
            Err(e) => unique_merge(arr_view(vals@)) == Err::<Model, _>(e),
        },
{
    let ghost vm = arr_view(vals@);
    proof {
        crate::value::lemma_arr_view(vals@);
    }
    let mut f: usize = 0;
    while f < vals.len() && matches!(&vals[f], Value::Null)
        invariant
            f <= vals.len(),
            vm == arr_view(vals@),
            forall|j: int| 0 <= j < f ==> vm[j] == Model::Null,
        decreases vals.len() - f,
    {
        proof {
            crate::value::lemma_arr_view(vals@);
        }
        f += 1;
    }
    proof {
        crate::value::lemma_arr_view(vals@);
        lemma_first_non_null_at(vm, f as int);
    }
    if f == vals.len() {
        proof {
            assert(vals_agree(vm));
        }
        return Ok(Value::Null);
    }
    let mut i: usize = f + 1;
    while i < vals.len()
        invariant
            f < i <= vals.len(),
            f < vals.len(),
            vm == arr_view(vals@),
            vm[f as int] != Model::Null,
            forall|j: int| 0 <= j < f ==> vm[j] == Model::Null,
            forall|j: int|
                f < j < i && #[trigger] vm[j] != Model::Null ==> vm[j] == vm[f as int],
        decreases vals.len() - i,
    {
        proof {
            crate::value::lemma_arr_view(vals@);
        }
        let is_null = matches!(&vals[i], Value::Null);
        if !is_null && !vals[i].eq_value(&vals[f]) {
            proof {
                assert(vm[i as int] != Model::Null && vm[f as int] != Model::Null && vm[i as int]
                    != vm[f as int]);
                assert(!vals_agree(vm));
            }
            return Err(EvalErrorKind::HitPolicyViolation);
        }
        i += 1;
    }
    proof {
        assert forall|a: int, b: int|
            0 <= a < vm.len() && 0 <= b < vm.len() && #[trigger] vm[a] != Model::Null
                && #[trigger] vm[b] != Model::Null implies vm[a] == vm[b] by {
            assert(vm[a] == vm[f as int]);
            assert(vm[b] == vm[f as int]);
        }
        assert(vals_agree(vm));
    }
    Ok(vals[f].duplicate())
}

/// Writes the list-policy outputs column by column, as
/// [`apply_list_outputs`] describes.
fn apply_list_x(
    outs: &Vec<TableField>,
    rules: &Vec<Rule>,
    m: &Vec<usize>,
    ctx0: &Value,
    acc: Value,
    j: usize,
    collapse: bool,
) -> (res: Result<Value, EvalErrorKind>)
    requires
        j <= outs.len(),
        forall|i: int| 0 <= i < m@.len() ==> (#[trigger] m@[i]) < rules.len(),
    ensures
        match res {
            Ok(v) => apply_list_outputs(outs@, rules@, idxs_view(m@), ctx0@, acc@, j as int, collapse)
                == Ok::<_, EvalErrorKind>(v@),
            Err(e) => apply_list_outputs(
                outs@,
                rules@,
                idxs_view(m@),
                ctx0@,
                acc@,
                j as int,
                collapse,
            ) == Err::<Model, _>(e),
        },
    decreases outs.len() - j,
{
    if j == outs.len() {
        return Ok(acc);
    }
    match collect_vals_x(rules, m, 0, &outs[j].id, ctx0) {
        Err(e) => Err(e),
        Ok(mut vals) => {
            let ghost vm = arr_view(vals@);
            proof {
                crate::value::lemma_arr_view(vals@);
            }
            let merged: Value = if collapse && vals.len() == 1 {
                proof {
                    crate::value::lemma_arr_view(vals@);
                }
                vals.remove(0)
            } else {
                Value::Arr(vals)
            };
            proof {
                assert(merged@ == list_value(vm, collapse));
            }
            match parse_path(outs[j].field.as_str()) {
                Err(e) => Err(EvalErrorKind::FieldErr(e)),
                Ok(p) => match write_path(acc, &p, merged) {
                    Err(e) => Err(EvalErrorKind::FieldErr(e)),
                    Ok(nc) => apply_list_x(outs, rules, m, ctx0, nc, j + 1, collapse),
                },
            }
        },
    }
}

/// Writes the `Unique`-policy outputs column by column, as
/// [`apply_unique_outputs`] describes.
fn apply_unique_x(
    outs: &Vec<TableField>,
    rules: &Vec<Rule>,
    m: &Vec<usize>,
    ctx0: &Value,
    acc: Value,
    j: usize,
) -> (res: Result<Value, EvalErrorKind>)
    requires
        j <= outs.len(),
        forall|i: int| 0 <= i < m@.len() ==> (#[trigger] m@[i]) < rules.len(),
    ensures
        match res {
            Ok(v) => apply_unique_outputs(outs@, rules@, idxs_view(m@), ctx0@, acc@, j as int)
                == Ok::<_, EvalErrorKind>(v@),
            Err(e) => apply_unique_outputs(outs@, rules@, idxs_view(m@), ctx0@, acc@, j as int)
                == Err::<Model, _>(e),
        },
    decreases outs.len() - j,
{
    if j == outs.len() {
        return Ok(acc);
    }
    match collect_vals_x(rules, m, 0, &outs[j].id, ctx0) {
        Err(e) => Err(e),
        Ok(vals) => match unique_merge_x(&vals) {
            Err(e) => Err(e),
            Ok(v) => match parse_path(outs[j].field.as_str()) {
                Err(e) => Err(EvalErrorKind::FieldErr(e)),
                Ok(p) => match write_path(acc, &p, v) {
                    Err(e) => Err(EvalErrorKind::FieldErr(e)),
                    Ok(nc) => apply_unique_x(outs, rules, m, ctx0, nc, j + 1),
                },
            },
        },
    }
}

/// Evaluates a decision table against a context, as [`eval_table_spec`]
/// describes.
pub fn evaluate_table(t: &DecisionTable, ctx: Value) -> (res: Result<Value, EvalErrorKind>)
    ensures
        match res {
            Ok(v) => eval_table_spec(*t, ctx@) == Ok::<_, EvalErrorKind>(v@),
            Err(e) => eval_table_spec(*t, ctx@) == Err::<Model, _>(e),
        },
{
    match matches_x(t, &ctx, 0) {
        Err(e) => Err(e),
        Ok(m) => {
            if m.len() == 0 {
                return Ok(ctx);
            }
            match t.hit_policy {
                HitPolicy::First => {
                    let acc = ctx.duplicate();
                    apply_scalar_x(&t.outputs, &t.rules[m[0]], &ctx, acc, 0)
                },
                HitPolicy::Priority => {
                    let b = best_from_x(&t.rules, &m, 0);
                    let acc = ctx.duplicate();
                    apply_scalar_x(&t.outputs, &t.rules[b], &ctx, acc, 0)
                },
                HitPolicy::RuleOrder => {
                    let acc = ctx.duplicate();
                    apply_list_x(&t.outputs, &t.rules, &m, &ctx, acc, 0, false)
                },
                HitPolicy::OutputOrder => {
                    let acc = ctx.duplicate();
                    apply_list_x(&t.outputs, &t.rules, &m, &ctx, acc, 0, false)
                },
                HitPolicy::Collect => {
                    let acc = ctx.duplicate();
                    apply_list_x(&t.outputs, &t.rules, &m, &ctx, acc, 0, true)
                },
                HitPolicy::Unique => {
                    let acc = ctx.duplicate();
                    apply_unique_x(&t.outputs, &t.rules, &m, &ctx, acc, 0)
                },
            }
        },
    }
}

} // verus!
