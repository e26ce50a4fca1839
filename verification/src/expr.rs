//! The expression evaluator: a restricted grammar of literals, field
//! references and a single relational comparison, evaluated against a data
//! context.
//!
//! A rule condition is one of: nothing (always true); a relational operator
//! followed by an operand, compared against the column's mapped field value;
//! a bare operand, tested for equality against the column value; or an
//! operand, an operator and an operand. Output expressions are a single
//! operand. Operands are integer literals, double-quoted string literals,
//! `true`, `false`, `null`, or field paths.

use vstd::prelude::*;
use vstd::string::StrSliceExecFns;
use crate::value::{Value, Model};
use crate::fields::{
    Seg, SegModel, segs_view, is_digit, is_ident_start, is_ident_char, scan_digits_end,
    digits_val, pow10, parse_path_at_spec, read_at,
};
use crate::fields::{
    lemma_scan_digits_end, lemma_digits_val_bound, lemma_pow10_mono, is_digit_x, is_ident_start_x,
    is_ident_char_x, scan_digits_end_x, parse_path_at_x, read_path,
};

verus! {

/// An error raised by the expression evaluator.
#[derive(Clone, Copy, Debug, PartialEq, Eq, Structural)]
pub enum ExprError {
    /// The expression text does not follow the grammar.
    ParseError,
    /// An operator-like token that is none of `<`, `<=`, `>`, `>=`, `==`, `!=`.
    UnknownOperator,
    /// The two compared values cannot be compared.
    TypeError,
}

/// A relational operator.
#[derive(Clone, Copy, Debug, PartialEq, Eq, Structural)]
pub enum CmpOp {
    Lt,
    Le,
    Gt,
    Ge,
    Eq,
    Ne,
}

/// An operand: a literal value or a field reference.
#[derive(Debug)]
pub enum Operand {
    Lit(Value),
    Ref(Vec<Seg>),
}

/// The model of an [`Operand`].
pub enum OperandModel {
    Lit(Model),
    Ref(Seq<SegModel>),
}

impl View for Operand {
    type V = OperandModel;

    open spec fn view(&self) -> OperandModel {
        match self {
            Operand::Lit(v) => OperandModel::Lit(v@),
            Operand::Ref(p) => OperandModel::Ref(segs_view(p@)),
        }
    }
}

/// A parsed condition: an optional explicit left operand, an operator, and
/// a right operand. A missing left operand stands for the column's mapped
/// field value.
#[derive(Debug)]
pub struct Cond {
    pub left: Option<Operand>,
    pub op: CmpOp,
    pub right: Operand,
}

/// The model of a [`Cond`].
pub struct CondModel {
    pub left: Option<OperandModel>,
    pub op: CmpOp,
    pub right: OperandModel,
}

impl View for Cond {
    type V = CondModel;

    open spec fn view(&self) -> CondModel {
        CondModel {
            left: match self.left {
                Some(l) => Some(l@),
                None => None,
            },
            op: self.op,
            right: self.right@,
        }
    }
}

/// Whitespace accepted between tokens.
pub open spec fn is_ws(c: char) -> bool {
    c == ' ' || c == '\t'
}

/// First position at or after `i` that is not whitespace.
pub open spec fn skip_ws(s: Seq<char>, i: int) -> int
    decreases s.len() - i,
{
    if i < s.len() && is_ws(s[i]) {
        skip_ws(s, i + 1)
    } else {
        i
    }
}

/// First position at or after `i` holding a double quote.
pub open spec fn scan_to_quote(s: Seq<char>, i: int) -> int
    decreases s.len() - i,
{
    if i < s.len() && s[i] != '"' {
        scan_to_quote(s, i + 1)
    } else {
        i
    }
}

/// True when the keyword `kw` stands at `i` and no identifier character
/// follows it.
pub open spec fn keyword_at(s: Seq<char>, i: int, kw: Seq<char>) -> bool {
    &&& 0 <= i
    &&& i + kw.len() <= s.len()
    &&& s.subrange(i, i + kw.len() as int) == kw
    &&& (i + kw.len() == s.len() || !is_ident_char(s[i + kw.len() as int]))
}

/// Parses one operand at `i`; returns the operand and the end position.
pub open spec fn parse_operand_spec(s: Seq<char>, i: int) -> Result<
    (OperandModel, int),
    ExprError,
>
{
    if 0 <= i < s.len() {
        if s[i] == '"' {
            let j = scan_to_quote(s, i + 1);
            if j < s.len() {
                Ok((OperandModel::Lit(Model::Str(s.subrange(i + 1, j))), j + 1))
            } else {
                Err(ExprError::ParseError)
            }
        } else if s[i] == '-' {
            let j = scan_digits_end(s, i + 1);
            if j - (i + 1) >= 1 && j - (i + 1) <= 18 {
                Ok((OperandModel::Lit(Model::Int(-digits_val(s, i + 1, j))), j))
            } else {
                Err(ExprError::ParseError)
            }
        } else if is_digit(s[i]) {
            let j = scan_digits_end(s, i);
            if j - i <= 18 {
                Ok((OperandModel::Lit(Model::Int(digits_val(s, i, j))), j))
            } else {
                Err(ExprError::ParseError)
            }
        } else if keyword_at(s, i, seq!['t', 'r', 'u', 'e']) {
            Ok((OperandModel::Lit(Model::Bool(true)), i + 4))
        } else if keyword_at(s, i, seq!['f', 'a', 'l', 's', 'e']) {
            Ok((OperandModel::Lit(Model::Bool(false)), i + 5))
        } else if keyword_at(s, i, seq!['n', 'u', 'l', 'l']) {
            Ok((OperandModel::Lit(Model::Null), i + 4))
        } else if is_ident_start(s[i]) {
            match parse_path_at_spec(s, i) {
                Ok(p) => Ok((OperandModel::Ref(p.0), p.1)),
                Err(_) => Err(ExprError::ParseError),
            }
        } else {
            Err(ExprError::ParseError)
        }
    } else {
        Err(ExprError::ParseError)
    }
}

/// True for characters that can start a relational operator.
pub open spec fn is_op_start(c: char) -> bool {
    c == '<' || c == '>' || c == '=' || c == '!'
}

/// Parses one relational operator at `i`.
pub open spec fn parse_op_spec(s: Seq<char>, i: int) -> Result<(CmpOp, int), ExprError> {
    if 0 <= i < s.len() {
        if s[i] == '<' {
            if i + 1 < s.len() && s[i + 1] == '=' {
                Ok((CmpOp::Le, i + 2))
            } else {
                Ok((CmpOp::Lt, i + 1))
            }
        } else if s[i] == '>' {
            if i + 1 < s.len() && s[i + 1] == '=' {
                Ok((CmpOp::Ge, i + 2))
            } else {
                Ok((CmpOp::Gt, i + 1))
            }
        } else if s[i] == '=' {
            if i + 1 < s.len() && s[i + 1] == '=' {
                Ok((CmpOp::Eq, i + 2))
            } else {
                Err(ExprError::UnknownOperator)
            }
        } else if s[i] == '!' {
            if i + 1 < s.len() && s[i + 1] == '=' {
                Ok((CmpOp::Ne, i + 2))
            } else {
                Err(ExprError::UnknownOperator)
            }
        } else {
            Err(ExprError::ParseError)
        }
    } else {
        Err(ExprError::ParseError)
    }
}

/// Parses a whole condition string. `Ok(None)` is the empty (always-true)
/// condition.
pub open spec fn parse_cond_spec(s: Seq<char>) -> Result<Option<CondModel>, ExprError> {
    let i = skip_ws(s, 0);
    if i == s.len() {
        Ok(None)
    } else if is_op_start(s[i]) {
        match parse_op_spec(s, i) {
            Ok(o) => match parse_operand_spec(s, skip_ws(s, o.1)) {
                Ok(r) => if skip_ws(s, r.1) == s.len() {
                    Ok(Some(CondModel { left: None, op: o.0, right: r.0 }))
                } else {
                    Err(ExprError::ParseError)
                },
                Err(e) => Err(e),
            },
            Err(e) => Err(e),
        }
    } else {
        match parse_operand_spec(s, i) {
            Ok(a) => {
                let k = skip_ws(s, a.1);
                if k == s.len() {
                    Ok(Some(CondModel { left: None, op: CmpOp::Eq, right: a.0 }))
                } else if is_op_start(s[k]) {
                    match parse_op_spec(s, k) {
                        Ok(o) => match parse_operand_spec(s, skip_ws(s, o.1)) {
                            Ok(b) => if skip_ws(s, b.1) == s.len() {
                                Ok(
                                    Some(
                                        CondModel {
                                            left: Some(a.0),
                                            op: o.0,
                                            right: b.0,
                                        },
                                    ),
                                )
                            } else {
                                Err(ExprError::ParseError)
                            },
                            Err(e) => Err(e),
                        },
                        Err(e) => Err(e),
                    }
                } else {
                    Err(ExprError::ParseError)
                }
            },
            Err(e) => Err(e),
        }
    }
}

/// Parses a whole output expression string: one operand, or nothing (which
/// produces `null`).
pub open spec fn parse_out_spec(s: Seq<char>) -> Result<OperandModel, ExprError> {
    let i = skip_ws(s, 0);
    if i == s.len() {
        Ok(OperandModel::Lit(Model::Null))
    } else {
        match parse_operand_spec(s, i) {
            Ok(a) => if skip_ws(s, a.1) == s.len() {
                Ok(a.0)
            } else {
                Err(ExprError::ParseError)
            },
            Err(e) => Err(e),
        }
    }
}

/// The value of an operand against a context; an absent field reads as null.
pub open spec fn eval_operand_spec(o: OperandModel, ctx: Model) -> Model {
    match o {
        OperandModel::Lit(v) => v,
        OperandModel::Ref(p) => match read_at(ctx, p, 0) {
            Some(v) => v,
            None => Model::Null,
        },
    }
}

/// Compares two values. Integers admit every relational operator; strings,
/// booleans and nulls admit equality and inequality; any other pairing is a
/// type error.
pub open spec fn compare_spec(op: CmpOp, a: Model, b: Model) -> Result<bool, ExprError> {
    match (a, b) {
        (Model::Int(x), Model::Int(y)) => Ok(
            match op {
                CmpOp::Lt => x < y,
                CmpOp::Le => x <= y,
                CmpOp::Gt => x > y,
                CmpOp::Ge => x >= y,
                CmpOp::Eq => x == y,
                CmpOp::Ne => x != y,
            },
        ),
        (Model::Str(x), Model::Str(y)) => match op {
            CmpOp::Eq => Ok(x == y),
            CmpOp::Ne => Ok(x != y),
            _ => Err(ExprError::TypeError),
        },
        (Model::Bool(x), Model::Bool(y)) => match op {
            CmpOp::Eq => Ok(x == y),
            CmpOp::Ne => Ok(x != y),
            _ => Err(ExprError::TypeError),
        },
        (Model::Null, Model::Null) => match op {
            CmpOp::Eq => Ok(true),
            CmpOp::Ne => Ok(false),
            _ => Err(ExprError::TypeError),
        },
        _ => Err(ExprError::TypeError),
    }
}

/// Whether a parsed condition holds of the column value `colval` in `ctx`.
pub open spec fn cond_holds_spec(c: Option<CondModel>, colval: Model, ctx: Model) -> Result<
    bool,
    ExprError,
> {
    match c {
        None => Ok(true),
        Some(cond) => {
            let lhs = match cond.left {
                Some(l) => eval_operand_spec(l, ctx),
                None => colval,
            };
            compare_spec(cond.op, lhs, eval_operand_spec(cond.right, ctx))
        },
    }
}

/// Whether the condition text `s` holds of `colval` in `ctx`.
pub open spec fn eval_cond_spec(s: Seq<char>, colval: Model, ctx: Model) -> Result<
    bool,
    ExprError,
> {
    match parse_cond_spec(s) {
        Ok(c) => cond_holds_spec(c, colval, ctx),
        Err(e) => Err(e),
    }
}

/// The value of the output expression text `s` in `ctx`.
pub open spec fn eval_out_spec(s: Seq<char>, ctx: Model) -> Result<Model, ExprError> {
    match parse_out_spec(s) {
        Ok(o) => Ok(eval_operand_spec(o, ctx)),
        Err(e) => Err(e),
    }
}

/// Expression evaluation is pure: two results of evaluating the same
/// condition text against the same column value and context are equal, and
/// the context itself is never changed (the evaluator only ever holds a
/// shared reference to it).
pub proof fn lemma_eval_cond_deterministic(
    s: Seq<char>,
    colval: Model,
    ctx: Model,
    r1: Result<bool, ExprError>,
    r2: Result<bool, ExprError>,
)
    requires
        r1 == eval_cond_spec(s, colval, ctx),
        r2 == eval_cond_spec(s, colval, ctx),
    ensures
        r1 == r2,
{
}

/// Output-expression evaluation is likewise pure: two results of
/// evaluating the same expression text against the same context are equal.
pub proof fn lemma_eval_out_deterministic(
    s: Seq<char>,
    ctx: Model,
    r1: Result<Model, ExprError>,
    r2: Result<Model, ExprError>,
)
    requires
        r1 == eval_out_spec(s, ctx),
        r2 == eval_out_spec(s, ctx),
    ensures
        r1 == r2,
{
}

fn is_ws_x(c: char) -> (r: bool)
    ensures
        r == is_ws(c),
{
    c == ' ' || c == '\t'
}

fn skip_ws_x(s: &str, i: usize, n: usize) -> (r: usize)
    requires
        n == s@.len(),
        i <= n,
    ensures
        r == skip_ws(s@, i as int),
        i <= r <= n,
{
    let mut j: usize = i;
    while j < n && is_ws_x(s.get_char(j))
        invariant
            i <= j <= n,
            n == s@.len(),
            skip_ws(s@, i as int) == skip_ws(s@, j as int),
        decreases n - j,
    {
        j += 1;
    }
    proof {
        assert(skip_ws(s@, j as int) == j);
    }
    j
}

fn scan_to_quote_x(s: &str, i: usize, n: usize) -> (r: usize)
    requires
        n == s@.len(),
        i <= n,
    ensures
        r == scan_to_quote(s@, i as int),
        i <= r <= n,
{
    let mut j: usize = i;
    while j < n && s.get_char(j) != '"'
        invariant
            i <= j <= n,
            n == s@.len(),
            scan_to_quote(s@, i as int) == scan_to_quote(s@, j as int),
        decreases n - j,
    {
        j += 1;
    }
    proof {
        assert(scan_to_quote(s@, j as int) == j);
    }
    j
}

/// Computes the value of the decimal digits `s[i..j)` without overflow.
fn digits_val_u64(s: &str, i: usize, j: usize) -> (r: u64)
    requires
        i <= j <= s@.len(),
        j - i <= 18,
        forall|k: int| i <= k < j ==> is_digit(s@[k]),
    ensures
        r == digits_val(s@, i as int, j as int),
{
    proof {
        reveal_with_fuel(pow10, 20);
    }
    let mut acc: u64 = 0;
    let mut k: usize = i;
    while k < j
        invariant
            i <= k <= j <= s@.len(),
            j - i <= 18,
            forall|m: int| i <= m < j ==> is_digit(s@[m]),
            acc == digits_val(s@, i as int, k as int),
            acc < pow10((k - i) as nat),
        decreases j - k,
    {
        proof {
            reveal_with_fuel(pow10, 20);
            lemma_pow10_mono(((k - i) as nat), 17);
            assert(acc < pow10(17));
        }
        let c = s.get_char(k);
        let d: u64 = (c as u32 - '0' as u32) as u64;
        acc = acc * 10 + d;
        k += 1;
    }
    acc
}

/// True when the keyword `kw` (given as its characters) stands at `i`.
fn keyword_at_x(s: &str, i: usize, n: usize, kw: &str, kwn: usize) -> (r: bool)
    requires
        n == s@.len(),
        kwn == kw@.len(),
        i <= n,
    ensures
        r == keyword_at(s@, i as int, kw@),
{
    if kwn > n - i {
        proof {
            assert(!keyword_at(s@, i as int, kw@));
        }
        return false;
    }
    let mut k: usize = 0;
    while k < kwn
        invariant
            0 <= k <= kwn,
            i + kwn <= n,
            n == s@.len(),
            kwn == kw@.len(),
            forall|m: int| 0 <= m < k ==> s@[i + m] == kw@[m],
        decreases kwn - k,
    {
        if s.get_char(i + k) != kw.get_char(k) {
            proof {
                assert(s@.subrange(i as int, i + kwn as int)[k as int] != kw@[k as int]);
            }
            return false;
        }
        k += 1;
    }
    let tail_ok = if i + kwn == n {
        true
    } else {
        !is_ident_char_x(s.get_char(i + kwn))
    };
    proof {
        if tail_ok {
            assert(s@.subrange(i as int, i + kwn as int) =~= kw@);
        }
    }
    tail_ok
}

/// Parses one operand at `i`, as [`parse_operand_spec`] describes.
#[verifier::rlimit(40)]
pub(crate) fn parse_operand_x(s: &str, i: usize, n: usize) -> (res: Result<
    (Operand, usize),
    ExprError,
>)
    requires
        n == s@.len(),
        i <= n,
    ensures
        match res {
            Ok(p) => {
                &&& parse_operand_spec(s@, i as int) == Ok::<_, ExprError>((p.0@, p.1 as int))
                &&& p.1 <= n
            },
            Err(e) => parse_operand_spec(s@, i as int) == Err::<(OperandModel, int), _>(e),
        },
{
    if i >= n {
        return Err(ExprError::ParseError);
    }
    let c = s.get_char(i);
    if c == '"' {
        let j = scan_to_quote_x(s, i + 1, n);
        if j < n {
            let lit = s.substring_char(i + 1, j).to_owned();
            Ok((Operand::Lit(Value::Str(lit)), j + 1))
        } else {
            Err(ExprError::ParseError)
        }
    } else if c == '-' {
        let j = scan_digits_end_x(s, i + 1, n);
        proof {
            lemma_scan_digits_end(s@, i + 1);
        }
        if j - (i + 1) >= 1 && j - (i + 1) <= 18 {
            proof {
                lemma_digits_val_bound(s@, i + 1, j as int);
                lemma_pow10_mono(((j - (i + 1)) as nat), 18);
                reveal_with_fuel(pow10, 20);
            }
            let mag = digits_val_u64(s, i + 1, j);
            let val: i64 = -(mag as i64);
            Ok((Operand::Lit(Value::Int(val)), j))
        } else {
            Err(ExprError::ParseError)
        }
    } else if is_digit_x(c) {
        let j = scan_digits_end_x(s, i, n);
        proof {
            lemma_scan_digits_end(s@, i as int);
        }
        if j - i <= 18 {
            proof {
                lemma_digits_val_bound(s@, i as int, j as int);
                lemma_pow10_mono(((j - i) as nat), 18);
                reveal_with_fuel(pow10, 20);
            }
            let mag = digits_val_u64(s, i, j);
            let val: i64 = mag as i64;
            Ok((Operand::Lit(Value::Int(val)), j))
        } else {
            Err(ExprError::ParseError)
        }
    } else if keyword_at_x(s, i, n, "true", "true".unicode_len()) {
        proof {
            reveal_strlit("true");
            assert("true"@ =~= seq!['t', 'r', 'u', 'e']);
        }
        Ok((Operand::Lit(Value::Bool(true)), i + 4))
    } else if keyword_at_x(s, i, n, "false", "false".unicode_len()) {
        proof {
            reveal_strlit("false");
            assert("false"@ =~= seq!['f', 'a', 'l', 's', 'e']);
        }
        Ok((Operand::Lit(Value::Bool(false)), i + 5))
    } else if keyword_at_x(s, i, n, "null", "null".unicode_len()) {
        proof {
            reveal_strlit("null");
            assert("null"@ =~= seq!['n', 'u', 'l', 'l']);
        }
        Ok((Operand::Lit(Value::Null), i + 4))
    } else if is_ident_start_x(c) {
        proof {
            reveal_strlit("true");
            reveal_strlit("false");
            reveal_strlit("null");
            assert("true"@ =~= seq!['t', 'r', 'u', 'e']);
            assert("false"@ =~= seq!['f', 'a', 'l', 's', 'e']);
            assert("null"@ =~= seq!['n', 'u', 'l', 'l']);
        }
        match parse_path_at_x(s, i, n) {
            Ok((p, e)) => Ok((Operand::Ref(p), e)),
            Err(_) => Err(ExprError::ParseError),
        }
    } else {
        proof {
            reveal_strlit("true");
            reveal_strlit("false");
            reveal_strlit("null");
            assert("true"@ =~= seq!['t', 'r', 'u', 'e']);
            assert("false"@ =~= seq!['f', 'a', 'l', 's', 'e']);
            assert("null"@ =~= seq!['n', 'u', 'l', 'l']);
            assert(!keyword_at(s@, i as int, seq!['t', 'r', 'u', 'e']));
            assert(!keyword_at(s@, i as int, seq!['f', 'a', 'l', 's', 'e']));
            assert(!keyword_at(s@, i as int, seq!['n', 'u', 'l', 'l']));
        }
        Err(ExprError::ParseError)
    }
}

/// Parses one relational operator at `i`, as [`parse_op_spec`] describes.
fn parse_op_x(s: &str, i: usize, n: usize) -> (res: Result<(CmpOp, usize), ExprError>)
    requires
        n == s@.len(),
        i <= n,
    ensures
        match res {
            Ok(p) => {
                &&& parse_op_spec(s@, i as int) == Ok::<_, ExprError>((p.0, p.1 as int))
                &&& i < p.1 <= n
            },
            Err(e) => parse_op_spec(s@, i as int) == Err::<(CmpOp, int), _>(e),
        },
{
    if i >= n {
        return Err(ExprError::ParseError);
    }
    let c = s.get_char(i);
    if c == '<' {
        if i + 1 < n && s.get_char(i + 1) == '=' {
            Ok((CmpOp::Le, i + 2))
        } else {
            Ok((CmpOp::Lt, i + 1))
        }
    } else if c == '>' {
        if i + 1 < n && s.get_char(i + 1) == '=' {
            Ok((CmpOp::Ge, i + 2))
        } else {
            Ok((CmpOp::Gt, i + 1))
        }
    } else if c == '=' {
        if i + 1 < n && s.get_char(i + 1) == '=' {
            Ok((CmpOp::Eq, i + 2))
        } else {
            Err(ExprError::UnknownOperator)
        }
    } else if c == '!' {
        if i + 1 < n && s.get_char(i + 1) == '=' {
            Ok((CmpOp::Ne, i + 2))
        } else {
            Err(ExprError::UnknownOperator)
        }
    } else {
        Err(ExprError::ParseError)
    }
}

fn is_op_start_x(c: char) -> (r: bool)
    ensures
        r == is_op_start(c),
{
    c == '<' || c == '>' || c == '=' || c == '!'
}

/// Parses a whole condition string, as [`parse_cond_spec`] describes.
pub fn parse_cond(s: &str) -> (res: Result<Option<Cond>, ExprError>)
    ensures
        match res {
            Ok(Some(c)) => parse_cond_spec(s@) == Ok::<_, ExprError>(Some(c@)),
            Ok(None) => parse_cond_spec(s@) == Ok::<Option<CondModel>, ExprError>(None),
            Err(e) => parse_cond_spec(s@) == Err::<Option<CondModel>, _>(e),
        },
{
    let n = s.unicode_len();
    let i = skip_ws_x(s, 0, n);
    if i == n {
        return Ok(None);
    }
    if is_op_start_x(s.get_char(i)) {
        match parse_op_x(s, i, n) {
            Ok((op, e)) => {
                let k = skip_ws_x(s, e, n);
                match parse_operand_x(s, k, n) {
                    Ok((r, e2)) => {
                        if skip_ws_x(s, e2, n) == n {
                            Ok(Some(Cond { left: None, op, right: r }))
                        } else {
                            Err(ExprError::ParseError)
                        }
                    },
                    Err(e2) => Err(e2),
                }
            },
            Err(e) => Err(e),
        }
    } else {
        match parse_operand_x(s, i, n) {
            Ok((a, e)) => {
                let k = skip_ws_x(s, e, n);
                if k == n {
                    Ok(Some(Cond { left: None, op: CmpOp::Eq, right: a }))
                } else if is_op_start_x(s.get_char(k)) {
                    match parse_op_x(s, k, n) {
                        Ok((op, e2)) => {
                            let k2 = skip_ws_x(s, e2, n);
                            match parse_operand_x(s, k2, n) {
                                Ok((b, e3)) => {
                                    if skip_ws_x(s, e3, n) == n {
                                        Ok(Some(Cond { left: Some(a), op, right: b }))
                                    } else {
                                        Err(ExprError::ParseError)
                                    }
                                },
                                Err(e3) => Err(e3),
                            }
                        },
                        Err(e2) => Err(e2),
                    }
                } else {
                    Err(ExprError::ParseError)
                }
            },
            Err(e) => Err(e),
        }
    }
}

/// The value of an operand against `ctx`, as [`eval_operand_spec`] describes.
pub fn eval_operand(o: &Operand, ctx: &Value) -> (res: Value)
    ensures
        res@ == eval_operand_spec(o@, ctx@),
{
    match o {
        Operand::Lit(v) => v.duplicate(),
        Operand::Ref(p) => match read_path(ctx, p) {
            Some(v) => v,
            None => Value::Null,
        },
    }
}

/// Compares two values, as [`compare_spec`] describes.
pub fn compare_values(op: CmpOp, a: &Value, b: &Value) -> (res: Result<bool, ExprError>)
    ensures
        res == compare_spec(op, a@, b@),
{
    match (a, b) {
        (Value::Int(x), Value::Int(y)) => Ok(
            match op {
                CmpOp::Lt => *x < *y,
                CmpOp::Le => *x <= *y,
                CmpOp::Gt => *x > *y,
                CmpOp::Ge => *x >= *y,
                CmpOp::Eq => *x == *y,
                CmpOp::Ne => *x != *y,
            },
        ),
        (Value::Str(x), Value::Str(y)) => match op {
            CmpOp::Eq => Ok(*x == *y),
            CmpOp::Ne => Ok(!(*x == *y)),
            _ => Err(ExprError::TypeError),
        },
        (Value::Bool(x), Value::Bool(y)) => match op {
            CmpOp::Eq => Ok(*x == *y),
            CmpOp::Ne => Ok(*x != *y),
            _ => Err(ExprError::TypeError),
        },
        (Value::Null, Value::Null) => match op {
            CmpOp::Eq => Ok(true),
            CmpOp::Ne => Ok(false),
            _ => Err(ExprError::TypeError),
        },
        _ => Err(ExprError::TypeError),
    }
}

/// Evaluates the condition text `s` against the column value `colval` in
/// `ctx`, as [`eval_cond_spec`] describes.
pub fn eval_cond(s: &str, colval: &Value, ctx: &Value) -> (res: Result<bool, ExprError>)
    ensures
        res == eval_cond_spec(s@, colval@, ctx@),
{
    match parse_cond(s) {
        Ok(None) => Ok(true),
        Ok(Some(cond)) => {
            let lhs = match &cond.left {
                Some(l) => eval_operand(l, ctx),
                None => colval.duplicate(),
            };
            let rhs = eval_operand(&cond.right, ctx);
            compare_values(cond.op, &lhs, &rhs)
        },
        Err(e) => Err(e),
    }
}

/// Evaluates the output expression text `s` in `ctx`, as [`eval_out_spec`]
/// describes.
pub fn eval_out(s: &str, ctx: &Value) -> (res: Result<Value, ExprError>)
    ensures
        match res {
            Ok(v) => eval_out_spec(s@, ctx@) == Ok::<_, ExprError>(v@),
            Err(e) => eval_out_spec(s@, ctx@) == Err::<Model, _>(e),
        },
{
    let n = s.unicode_len();
    let i = skip_ws_x(s, 0, n);
    if i == n {
        return Ok(Value::Null);
    }
    match parse_operand_x(s, i, n) {
        Ok((o, e)) => {
            if skip_ws_x(s, e, n) == n {
                Ok(eval_operand(&o, ctx))
            } else {
                Err(ExprError::ParseError)
            }
        },
        Err(e) => Err(e),
    }
}

} // verus!
