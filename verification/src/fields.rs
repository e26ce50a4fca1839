//! The field mapper: dotted paths with bracket indices (`input.items[0].value`)
//! that address read and write locations inside a nested data context.

use vstd::prelude::*;
use vstd::string::StrSliceExecFns;
use crate::value::{Value, Model, obj_index, obj_get, fields_view, arr_view};
use crate::value::{lemma_obj_index_get, lemma_fields_view, lemma_arr_view};

verus! {

/// An error raised by the field mapper.
#[derive(Clone, Copy, Debug, PartialEq, Eq, Structural)]
pub enum FieldError {
    /// A write met a scalar where an object or array was required,
    /// or an array index out of range.
    TypeMismatch,
    /// A path string does not follow the path grammar.
    InvalidPath,
}

/// One step of a path: an object key or an array index.
#[derive(Debug)]
pub enum Seg {
    Key(String),
    Index(usize),
}

/// The model of a [`Seg`].
pub enum SegModel {
    Key(Seq<char>),
    Index(int),
}

impl View for Seg {
    type V = SegModel;

    open spec fn view(&self) -> SegModel {
        match self {
            Seg::Key(k) => SegModel::Key(k@),
            Seg::Index(i) => SegModel::Index(*i as int),
        }
    }
}

/// Pointwise model of a parsed path.
pub open spec fn segs_view(path: Seq<Seg>) -> Seq<SegModel> {
    path.map_values(|g: Seg| g@)
}

/// Characters that may start a path identifier.
pub open spec fn is_ident_start(c: char) -> bool {
    ('a' <= c && c <= 'z') || ('A' <= c && c <= 'Z') || c == '_'
}

/// Characters that may continue a path identifier.
pub open spec fn is_ident_char(c: char) -> bool {
    is_ident_start(c) || is_digit(c)
}

/// Decimal digits.
pub open spec fn is_digit(c: char) -> bool {
    '0' <= c && c <= '9'
}

/// First position at or after `i` that is not an identifier character.
pub open spec fn scan_ident_end(s: Seq<char>, i: int) -> int
    decreases s.len() - i,
{
    if i < s.len() && is_ident_char(s[i]) {
        scan_ident_end(s, i + 1)
    } else {
        i
    }
}

/// First position at or after `i` that is not a digit.
pub open spec fn scan_digits_end(s: Seq<char>, i: int) -> int
    decreases s.len() - i,
{
    if i < s.len() && is_digit(s[i]) {
        scan_digits_end(s, i + 1)
    } else {
        i
    }
}

pub proof fn lemma_scan_ident_end(s: Seq<char>, i: int)
    requires
        0 <= i <= s.len(),
    ensures
        i <= scan_ident_end(s, i) <= s.len(),
        forall|k: int| i <= k < scan_ident_end(s, i) ==> is_ident_char(s[k]),
        scan_ident_end(s, i) == s.len() || !is_ident_char(s[scan_ident_end(s, i)]),
    decreases s.len() - i,
{
    if i < s.len() && is_ident_char(s[i]) {
        lemma_scan_ident_end(s, i + 1);
    }
}

pub proof fn lemma_scan_digits_end(s: Seq<char>, i: int)
    requires
        0 <= i <= s.len(),
    ensures
        i <= scan_digits_end(s, i) <= s.len(),
        forall|k: int| i <= k < scan_digits_end(s, i) ==> is_digit(s[k]),
        scan_digits_end(s, i) == s.len() || !is_digit(s[scan_digits_end(s, i)]),
    decreases s.len() - i,
{
    if i < s.len() && is_digit(s[i]) {
        lemma_scan_digits_end(s, i + 1);
    }
}

/// Value of the decimal digits `s[i..j)`, most significant first.
pub open spec fn digits_val(s: Seq<char>, i: int, j: int) -> int
    decreases j - i,
{
    if j <= i {
        0
    } else {
        digits_val(s, i, j - 1) * 10 + (s[j - 1] as u32 - '0' as u32)
    }
}

/// Powers of ten.
pub open spec fn pow10(n: nat) -> nat
    decreases n,
{
    if n == 0 {
        1
    } else {
        10 * pow10((n - 1) as nat)
    }
}

pub proof fn lemma_pow10_mono(a: nat, b: nat)
    requires
        a <= b,
    ensures
        pow10(a) <= pow10(b),
    decreases b,
{
    if a < b {
        lemma_pow10_mono(a, (b - 1) as nat);
    }
}

/// Digit strings of `n` digits denote values below `pow10(n)`.
pub proof fn lemma_digits_val_bound(s: Seq<char>, i: int, j: int)
    requires
        0 <= i <= j <= s.len(),
        forall|k: int| i <= k < j ==> is_digit(s[k]),
    ensures
        0 <= digits_val(s, i, j) < pow10((j - i) as nat),
    decreases j - i,
{
    if j > i {
        lemma_digits_val_bound(s, i, j - 1);
    }
}

/// Parses the continuation of a path from position `i`: a sequence of
/// `.identifier` and `[digits]` steps, ending at the first character that
/// starts neither. Returns the parsed steps and the end position.
pub open spec fn parse_segs(s: Seq<char>, i: int) -> Result<(Seq<SegModel>, int), FieldError>
    decreases s.len() - i,
{
    if 0 <= i < s.len() && s[i] == '.' {
        if i + 1 < s.len() && is_ident_start(s[i + 1]) {
            let j = scan_ident_end(s, i + 2);
            proof {
                lemma_scan_ident_end(s, i + 2);
            }
            match parse_segs(s, j) {
                Ok(p) => Ok((seq![SegModel::Key(s.subrange(i + 1, j))] + p.0, p.1)),
                Err(e) => Err(e),
            }
        } else {
            Err(FieldError::InvalidPath)
        }
    } else if 0 <= i < s.len() && s[i] == '[' {
        if i + 1 < s.len() && is_digit(s[i + 1]) {
            let j = scan_digits_end(s, i + 2);
            proof {
                lemma_scan_digits_end(s, i + 2);
            }
            if j - (i + 1) <= 9 && j < s.len() && s[j] == ']' {
                match parse_segs(s, j + 1) {
                    Ok(p) => Ok((seq![SegModel::Index(digits_val(s, i + 1, j))] + p.0, p.1)),
                    Err(e) => Err(e),
                }
            } else {
                Err(FieldError::InvalidPath)
            }
        } else {
            Err(FieldError::InvalidPath)
        }
    } else {
        Ok((seq![], i))
    }
}

/// Parses one whole path starting at `i`: an identifier followed by steps.
pub open spec fn parse_path_at_spec(s: Seq<char>, i: int) -> Result<
    (Seq<SegModel>, int),
    FieldError,
> {
    if 0 <= i < s.len() && is_ident_start(s[i]) {
        let j = scan_ident_end(s, i);
        match parse_segs(s, j) {
            Ok(p) => Ok((seq![SegModel::Key(s.subrange(i, j))] + p.0, p.1)),
            Err(e) => Err(e),
        }
    } else {
        Err(FieldError::InvalidPath)
    }
}

/// Parses a complete path string; the whole string must be consumed.
pub open spec fn parse_path_spec(s: Seq<char>) -> Result<Seq<SegModel>, FieldError> {
    match parse_path_at_spec(s, 0) {
        Ok(p) => if p.1 == s.len() {
            Ok(p.0)
        } else {
            Err(FieldError::InvalidPath)
        },
        Err(e) => Err(e),
    }
}

pub(crate) fn is_ident_start_x(c: char) -> (r: bool)
    ensures
        r == is_ident_start(c),
{
    ('a' <= c && c <= 'z') || ('A' <= c && c <= 'Z') || c == '_'
}

pub(crate) fn is_digit_x(c: char) -> (r: bool)
    ensures
        r == is_digit(c),
{
    '0' <= c && c <= '9'
}

pub(crate) fn is_ident_char_x(c: char) -> (r: bool)
    ensures
        r == is_ident_char(c),
{
    is_ident_start_x(c) || is_digit_x(c)
}

pub(crate) fn scan_ident_end_x(s: &str, i: usize, n: usize) -> (r: usize)
    requires
        n == s@.len(),
        i <= n,
    ensures
        r == scan_ident_end(s@, i as int),
        i <= r <= n,
{
    let mut j: usize = i;
    while j < n && is_ident_char_x(s.get_char(j))
        invariant
            i <= j <= n,
            n == s@.len(),
            scan_ident_end(s@, i as int) == scan_ident_end(s@, j as int),
        decreases n - j,
    {
        j += 1;
    }
    proof {
        assert(scan_ident_end(s@, j as int) == j);
    }
    j
}

pub(crate) fn scan_digits_end_x(s: &str, i: usize, n: usize) -> (r: usize)
    requires
        n == s@.len(),
        i <= n,
    ensures
        r == scan_digits_end(s@, i as int),
        i <= r <= n,
{
    let mut j: usize = i;
    while j < n && is_digit_x(s.get_char(j))
        invariant
            i <= j <= n,
            n == s@.len(),
            scan_digits_end(s@, i as int) == scan_digits_end(s@, j as int),
        decreases n - j,
    {
        j += 1;
    }
    proof {
        assert(scan_digits_end(s@, j as int) == j);
    }
    j
}

pub(crate) fn digits_val_x(s: &str, i: usize, j: usize) -> (r: usize)
    requires
        i <= j <= s@.len(),
        j - i <= 9,
        forall|k: int| i <= k < j ==> is_digit(s@[k]),
    ensures
        r == digits_val(s@, i as int, j as int),
{
    proof {
        reveal_with_fuel(pow10, 11);
    }
    let mut acc: usize = 0;
    let mut k: usize = i;
    while k < j
        invariant
            i <= k <= j <= s@.len(),
            j - i <= 9,
            forall|m: int| i <= m < j ==> is_digit(s@[m]),
            acc == digits_val(s@, i as int, k as int),
            acc < pow10((k - i) as nat),
        decreases j - k,
    {
        proof {
            reveal_with_fuel(pow10, 11);
            lemma_pow10_mono(((k - i) as nat), 8);
            assert(acc < pow10(8));
        }
        let c = s.get_char(k);
        let d: usize = (c as u32 - '0' as u32) as usize;
        acc = acc * 10 + d;
        k += 1;
    }
    acc
}

/// Parses the continuation of a path, as [`parse_segs`] describes.
pub(crate) fn parse_segs_x(s: &str, i: usize, n: usize) -> (res: Result<
    (Vec<Seg>, usize),
    FieldError,
>)
    requires
        n == s@.len(),
        i <= n,
    ensures
        match res {
            Ok(p) => {
                &&& parse_segs(s@, i as int) == Ok::<_, FieldError>((segs_view(p.0@), p.1 as int))
                &&& i <= p.1 <= n
            },
            Err(e) => parse_segs(s@, i as int) == Err::<(Seq<SegModel>, int), _>(e),
        },
    decreases n - i,
{
    if i < n && s.get_char(i) == '.' {
        if i + 1 < n && is_ident_start_x(s.get_char(i + 1)) {
            let j = scan_ident_end_x(s, i + 2, n);
            proof {
                lemma_scan_ident_end(s@, i + 2);
            }
            let key = s.substring_char(i + 1, j).to_owned();
            match parse_segs_x(s, j, n) {
                Ok((mut v, e)) => {
                    let ghost old_v = v@;
                    v.insert(0, Seg::Key(key));
                    proof {
                        assert(segs_view(v@) =~= seq![SegModel::Key(s@.subrange(i + 1, j as int))]
                            + segs_view(old_v));
                    }
                    Ok((v, e))
                },
                Err(e) => Err(e),
            }
        } else {
            Err(FieldError::InvalidPath)
        }
    } else if i < n && s.get_char(i) == '[' {
        if i + 1 < n && is_digit_x(s.get_char(i + 1)) {
            let j = scan_digits_end_x(s, i + 2, n);
            proof {
                lemma_scan_digits_end(s@, i + 2);
            }
            if j - (i + 1) <= 9 && j < n && s.get_char(j) == ']' {
                let ix = digits_val_x(s, i + 1, j);
                match parse_segs_x(s, j + 1, n) {
                    Ok((mut v, e)) => {
                        let ghost old_v = v@;
                        v.insert(0, Seg::Index(ix));
                        proof {
                            assert(segs_view(v@) =~= seq![SegModel::Index(digits_val(s@, i + 1, j as int))]
                                + segs_view(old_v));
                        }
                        Ok((v, e))
                    },
                    Err(e) => Err(e),
                }
            } else {
                Err(FieldError::InvalidPath)
            }
        } else {
            Err(FieldError::InvalidPath)
        }
    } else {
        let v: Vec<Seg> = Vec::new();
        proof {
            assert(segs_view(v@) =~= Seq::<SegModel>::empty());
        }
        Ok((v, i))
    }
}

/// Parses one whole path starting at `i`, as [`parse_path_at_spec`] describes.
pub(crate) fn parse_path_at_x(s: &str, i: usize, n: usize) -> (res: Result<
    (Vec<Seg>, usize),
    FieldError,
>)
    requires
        n == s@.len(),
        i <= n,
    ensures
        match res {
            Ok(p) => {
                &&& parse_path_at_spec(s@, i as int) == Ok::<_, FieldError>(
                    (segs_view(p.0@), p.1 as int),
                )
                &&& i <= p.1 <= n
            },
            Err(e) => parse_path_at_spec(s@, i as int) == Err::<(Seq<SegModel>, int), _>(e),
        },
{
    if i < n && is_ident_start_x(s.get_char(i)) {
        let j = scan_ident_end_x(s, i, n);
        proof {
            lemma_scan_ident_end(s@, i as int);
        }
        let key = s.substring_char(i, j).to_owned();
        match parse_segs_x(s, j, n) {
            Ok((mut v, e)) => {
                let ghost old_v = v@;
                v.insert(0, Seg::Key(key));
                proof {
                    assert(segs_view(v@) =~= seq![SegModel::Key(s@.subrange(i as int, j as int))]
                        + segs_view(old_v));
                }
                Ok((v, e))
            },
            Err(e) => Err(e),
        }
    } else {
        Err(FieldError::InvalidPath)
    }
}

/// Parses a complete path string, as [`parse_path_spec`] describes.
pub fn parse_path(s: &str) -> (res: Result<Vec<Seg>, FieldError>)
    ensures
        match res {
            Ok(v) => parse_path_spec(s@) == Ok::<_, FieldError>(segs_view(v@)),
            Err(e) => parse_path_spec(s@) == Err::<Seq<SegModel>, _>(e),
        },
{
    let n = s.unicode_len();
    match parse_path_at_x(s, 0, n) {
        Ok((v, e)) => {
            if e == n {
                Ok(v)
            } else {
                Err(FieldError::InvalidPath)
            }
        },
        Err(e) => Err(e),
    }
}

/// The value reached from `m` by following `path` from step `pos` on:
/// object keys and in-range array indices descend; anything else is absent.
pub open spec fn read_at(m: Model, path: Seq<SegModel>, pos: int) -> Option<Model>
    decreases path.len() - pos,
{
    if pos < 0 || pos >= path.len() {
        Some(m)
    } else {
        match path[pos] {
            SegModel::Key(k) => match m {
                Model::Obj(fs) => match obj_get(fs, k) {
                    Some(child) => read_at(child, path, pos + 1),
                    None => None,
                },
                _ => None,
            },
            SegModel::Index(ix) => match m {
                Model::Arr(es) => if 0 <= ix < es.len() {
                    read_at(es[ix], path, pos + 1)
                } else {
                    None
                },
                _ => None,
            },
        }
    }
}

/// The result of writing `v` into `m` at `path` from step `pos` on. A key
/// missing from an object is created (as a nested object while further steps
/// remain); a scalar met where an object or array is required, a key step
/// into an array, or an out-of-range index is a `TypeMismatch`.
pub open spec fn write_at(m: Model, path: Seq<SegModel>, pos: int, v: Model) -> Result<
    Model,
    FieldError,
>
    decreases path.len() - pos,
{
    if pos < 0 || pos >= path.len() {
        Ok(v)
    } else {
        match path[pos] {
            SegModel::Key(k) => match m {
                Model::Obj(fs) => match obj_index(fs, k) {
                    Some(j) => match write_at(fs[j].1, path, pos + 1, v) {
                        Ok(nv) => Ok(Model::Obj(fs.update(j, (k, nv)))),
                        Err(e) => Err(e),
                    },
                    None => match write_at(Model::Obj(Seq::empty()), path, pos + 1, v) {
                        Ok(nv) => Ok(Model::Obj(fs.push((k, nv)))),
                        Err(e) => Err(e),
                    },
                },
                _ => Err(FieldError::TypeMismatch),
            },
            SegModel::Index(ix) => match m {
                Model::Arr(es) => if 0 <= ix < es.len() {
                    match write_at(es[ix], path, pos + 1, v) {
                        Ok(nv) => Ok(Model::Arr(es.update(ix, nv))),
                        Err(e) => Err(e),
                    }
                } else {
                    Err(FieldError::TypeMismatch)
                },
                _ => Err(FieldError::TypeMismatch),
            },
        }
    }
}

/// Looks up the first entry of `fields` bound to `key`.
pub(crate) fn obj_find(fields: &Vec<(String, Value)>, key: &String) -> (res: Option<usize>)
    ensures
        match res {
            Some(j) => {
                &&& obj_index(fields_view(fields@), key@) == Some(j as int)
                &&& j < fields.len()
            },
            None => obj_index(fields_view(fields@), key@) is None,
        },
{
    let ghost fv = fields_view(fields@);
    proof {
        lemma_fields_view(fields@);
    }
    let mut i: usize = 0;
    while i < fields.len()
        invariant
            i <= fields.len(),
            fv == fields_view(fields@),
            forall|j: int| 0 <= j < i ==> fields@[j].0@ != key@,
        decreases fields.len() - i,
    {
        if fields[i].0 == *key {
            proof {
                lemma_fields_view(fields@);
                assert(fv[i as int].0 == key@);
                assert forall|j: int| 0 <= j < i implies fv[j].0 != key@ by {
                    assert(fv[j] == (fields@[j].0@, fields@[j].1@));
                }
                crate::value::lemma_obj_index_unique(fv, key@, i as int);
            }
            return Some(i);
        }
        i += 1;
    }
    proof {
        lemma_fields_view(fields@);
        assert forall|j: int| 0 <= j < fv.len() implies fv[j].0 != key@ by {
            assert(fv[j] == (fields@[j].0@, fields@[j].1@));
        }
        crate::value::lemma_obj_index_none(fv, key@);
    }
    None
}

/// Reads the value at `path` (from step `pos` on) out of `ctx`, as
/// [`read_at`] describes; the result is a copy.
pub fn read_path_from(ctx: &Value, path: &Vec<Seg>, pos: usize) -> (res: Option<Value>)
    requires
        pos <= path.len(),
    ensures
        match res {
            Some(v) => read_at(ctx@, segs_view(path@), pos as int) == Some(v@),
            None => read_at(ctx@, segs_view(path@), pos as int) is None,
        },
    decreases path.len() - pos,
{
    if pos == path.len() {
        return Some(ctx.duplicate());
    }
    match &path[pos] {
        Seg::Key(k) => match ctx {
            Value::Obj(fields) => match obj_find(fields, k) {
                Some(j) => {
                    proof {
                        lemma_fields_view(fields@);
                        lemma_obj_index_get(fields_view(fields@), k@);
                    }
                    read_path_from(&fields[j].1, path, pos + 1)
                },
                None => {
                    proof {
                        lemma_obj_index_get(fields_view(fields@), k@);
                    }
                    None
                },
            },
            _ => None,
        },
        Seg::Index(ix) => match ctx {
            Value::Arr(items) => {
                if *ix < items.len() {
                    proof {
                        lemma_arr_view(items@);
                    }
                    read_path_from(&items[*ix], path, pos + 1)
                } else {
                    proof {
                        lemma_arr_view(items@);
                    }
                    None
                }
            },
            _ => None,
        },
    }
}

/// Reads the value at a whole `path` out of `ctx`.
pub fn read_path(ctx: &Value, path: &Vec<Seg>) -> (res: Option<Value>)
    ensures
        match res {
            Some(v) => read_at(ctx@, segs_view(path@), 0) == Some(v@),
            None => read_at(ctx@, segs_view(path@), 0) is None,
        },
{
    read_path_from(ctx, path, 0)
}

/// Writes `v` into `ctx` at `path` from step `pos` on, as [`write_at`]
/// describes.
pub fn write_path_from(ctx: Value, path: &Vec<Seg>, pos: usize, v: Value) -> (res: Result<
    Value,
    FieldError,
>)
    requires
        pos <= path.len(),
    ensures
        match res {
            Ok(w) => write_at(ctx@, segs_view(path@), pos as int, v@) == Ok::<_, FieldError>(w@),
            Err(e) => write_at(ctx@, segs_view(path@), pos as int, v@) == Err::<Model, _>(e),
        },
    decreases path.len() - pos,
{
    if pos == path.len() {
        return Ok(v);
    }
    match &path[pos] {
        Seg::Key(k) => match ctx {
            Value::Obj(mut fields) => {
                let ghost fs0 = fields@;
                proof {
                    assert(ctx@ == Model::Obj(fields_view(fs0)));
                }
                match obj_find(&fields, k) {
                    Some(j) => {
                        proof {
                            lemma_fields_view(fs0);
                            lemma_obj_index_get(fields_view(fs0), k@);
                        }
                        let (key, child) = fields.remove(j);
                        proof {
                            assert(child@ == fields_view(fs0)[j as int].1);
                            assert(key@ == k@);
                        }
                        match write_path_from(child, path, pos + 1, v) {
                            Ok(nv) => {
                                fields.insert(j, (key, nv));
                                proof {
                                    lemma_fields_view(fs0);
                                    lemma_fields_view(fields@);
                                    lemma_obj_index_get(fields_view(fs0), k@);
                                    assert(fields_view(fields@) =~= fields_view(fs0).update(
                                        j as int,
                                        (k@, nv@),
                                    ));
                                }
                                Ok(Value::Obj(fields))
                            },
                            Err(e) => Err(e),
                        }
                    },
                    None => {
                        match write_path_from(Value::Obj(Vec::new()), path, pos + 1, v) {
                            Ok(nv) => {
                                let key = k.clone();
                                fields.push((key, nv));
                                proof {
                                    lemma_fields_view(fs0);
                                    lemma_fields_view(fields@);
                                    assert(fields_view(fields@) =~= fields_view(fs0).push(
                                        (k@, nv@),
                                    ));
                                }
                                Ok(Value::Obj(fields))
                            },
                            Err(e) => Err(e),
                        }
                    },
                }
            },
            _ => Err(FieldError::TypeMismatch),
        },
        Seg::Index(ix) => match ctx {
            Value::Arr(mut items) => {
                let ghost es0 = items@;
                proof {
                    assert(ctx@ == Model::Arr(arr_view(es0)));
                }
                if *ix < items.len() {
                    proof {
                        lemma_arr_view(es0);
                    }
                    let child = items.remove(*ix);
                    proof {
                        assert(child@ == arr_view(es0)[*ix as int]);
                    }
                    match write_path_from(child, path, pos + 1, v) {
                        Ok(nv) => {
                            items.insert(*ix, nv);
                            proof {
                                lemma_arr_view(es0);
                                lemma_arr_view(items@);
                                assert(arr_view(items@) =~= arr_view(es0).update(*ix as int, nv@));
                            }
                            Ok(Value::Arr(items))
                        },
                        Err(e) => Err(e),
                    }
                } else {
                    proof {
                        lemma_arr_view(es0);
                    }
                    Err(FieldError::TypeMismatch)
                }
            },
            _ => Err(FieldError::TypeMismatch),
        },
    }
}

/// Writes `v` into `ctx` at a whole `path`.
pub fn write_path(ctx: Value, path: &Vec<Seg>, v: Value) -> (res: Result<Value, FieldError>)
    ensures
        match res {
            Ok(w) => write_at(ctx@, segs_view(path@), 0, v@) == Ok::<_, FieldError>(w@),
            Err(e) => write_at(ctx@, segs_view(path@), 0, v@) == Err::<Model, _>(e),
        },
{
    write_path_from(ctx, path, 0, v)
}

/// After updating the first entry bound to `key`, that key reads the new value.
proof fn lemma_obj_get_update(fs: Seq<(Seq<char>, Model)>, key: Seq<char>, j: int, nv: Model)
    requires
        0 <= j < fs.len(),
        fs[j].0 == key,
        forall|i: int| 0 <= i < j ==> fs[i].0 != key,
    ensures
        obj_get(fs.update(j, (key, nv)), key) == Some(nv),
    decreases j,
{
    if j == 0 {
    } else {
        lemma_obj_get_update(fs.drop_first(), key, j - 1, nv);
        assert(fs.update(j, (key, nv)).drop_first() =~= fs.drop_first().update(j - 1, (key, nv)));
    }
}

/// A key absent from every entry reads the value appended for it.
proof fn lemma_obj_get_push(fs: Seq<(Seq<char>, Model)>, key: Seq<char>, nv: Model)
    requires
        forall|i: int| 0 <= i < fs.len() ==> fs[i].0 != key,
    ensures
        obj_get(fs.push((key, nv)), key) == Some(nv),
    decreases fs.len(),
{
    if fs.len() > 0 {
        lemma_obj_get_push(fs.drop_first(), key, nv);
        assert(fs.push((key, nv)).drop_first() =~= fs.drop_first().push((key, nv)));
    }
}

/// Round trip: a value just written at a path is read back unchanged from
/// the same path.
pub proof fn lemma_write_read_round_trip(m: Model, path: Seq<SegModel>, pos: int, v: Model)
    requires
        0 <= pos <= path.len(),
    ensures
        match write_at(m, path, pos, v) {
            Ok(w) => read_at(w, path, pos) == Some(v),
            Err(_) => true,
        },
    decreases path.len() - pos,
{
    if pos >= path.len() {
    } else {
        match path[pos] {
            SegModel::Key(k) => {
                match m {
                    Model::Obj(fs) => {
                        lemma_obj_index_get(fs, k);
                        match obj_index(fs, k) {
                            Some(j) => {
                                lemma_write_read_round_trip(fs[j].1, path, pos + 1, v);
                                if write_at(fs[j].1, path, pos + 1, v) is Ok {
                                    let nv = write_at(fs[j].1, path, pos + 1, v)->Ok_0;
                                    lemma_obj_get_update(fs, k, j, nv);
                                }
                            },
                            None => {
                                lemma_write_read_round_trip(
                                    Model::Obj(Seq::empty()),
                                    path,
                                    pos + 1,
                                    v,
                                );
                                if write_at(Model::Obj(Seq::empty()), path, pos + 1, v) is Ok {
                                    let nv = write_at(Model::Obj(Seq::empty()), path, pos + 1, v)->Ok_0;
                                    lemma_obj_get_push(fs, k, nv);
                                }
                            },
                        }
                    },
                    _ => {},
                }
            },
            SegModel::Index(ix) => {
                match m {
                    Model::Arr(es) => {
                        if 0 <= ix < es.len() {
                            lemma_write_read_round_trip(es[ix], path, pos + 1, v);
                        }
                    },
                    _ => {},
                }
            },
        }
    }
}

} // verus!
