use vstd::prelude::*;
use crate::error::{Error, Expected};
use crate::scan::{scan_str_end, scan_digit_end, match_literal, decimal, lower_bytes};
use crate::value::{
    Value, Val, Shape, Width, model, entry_shape, lookup, int_low, int_high, uint_high,
};
use crate::wire::{
    VAR, VAL, TABLE_START, TABLE_END, ARRAY_START, ARRAY_END, is_sentinel, is_digit, str_end,
    digit_end, has_at, dec_value, lower, null_lit, true_lit, false_lit, copy_bytes,
};

verus! {

pub open spec fn parse_unit(s: Seq<u8>, p: int) -> Result<(Val, int), Error> {
    if has_at(s, p, null_lit()) {
        Ok((Val::Null, p + 4))
    } else {
        Err(Error::Parse(Expected::Null))
    }
}

pub open spec fn parse_bool(s: Seq<u8>, p: int) -> Result<(Val, int), Error> {
    if has_at(s, p, true_lit()) {
        Ok((Val::Bool(true), p + 4))
    } else if has_at(s, p, false_lit()) {
        Ok((Val::Bool(false), p + 5))
    } else {
        Err(Error::Parse(Expected::Boolean))
    }
}

/// Digits, read as a number no greater than the width allows.
pub open spec fn parse_uint(w: Width, s: Seq<u8>, p: int) -> Result<(Val, int), Error> {
    let e = digit_end(s, p);
    if e <= p || dec_value(s.subrange(p, e)) > uint_high(w) {
        Err(Error::Parse(Expected::Integer))
    } else {
        Ok((Val::UInt(dec_value(s.subrange(p, e)) as int), e))
    }
}

/// An optional `-` and digits, read as a number in the width's range.
pub open spec fn parse_int(w: Width, s: Seq<u8>, p: int) -> Result<(Val, int), Error> {
    let neg = 0 <= p < s.len() && s[p] == 45;
    let d = if neg {
        p + 1
    } else {
        p
    };
    let e = digit_end(s, d);
    let n = dec_value(s.subrange(d, e)) as int;
    let i = if neg {
        -n
    } else {
        n
    };
    if e <= d || i < int_low(w) || i > int_high(w) {
        Err(Error::Parse(Expected::Integer))
    } else {
        Ok((Val::Int(i), e))
    }
}

/// The string run at `p`, possibly empty.
pub open spec fn parse_str(s: Seq<u8>, p: int) -> Result<(Val, int), Error> {
    Ok((Val::Str(s.subrange(p, str_end(s, p))), str_end(s, p)))
}

/// Reads the value of shape `sh` that starts at `p`: the value and the
/// position after it.
pub open spec fn parse(sh: Shape, s: Seq<u8>, p: int) -> Result<(Val, int), Error>
    decreases s.len() - p, sh,
{
    if p < 0 || p > s.len() {
        Err(Error::Eof)
    } else {
        match sh {
            Shape::Any => if p == s.len() {
                Err(Error::Eof)
            } else if s[p] == 78 {
                parse_unit(s, p)
            } else if s[p] == 84 || s[p] == 70 {
                parse_bool(s, p)
            } else if is_digit(s[p]) {
                parse_uint(Width::W64, s, p)
            } else if s[p] == 45 {
                parse_int(Width::W64, s, p)
            } else if s[p] == ARRAY_START {
                match parse_items(Shape::Any, s, p + 1) {
                    Ok((vs, q)) => Ok((Val::Array(vs), q)),
                    Err(e) => Err(e),
                }
            } else if s[p] == TABLE_START {
                match parse_entries(Shape::Any, s, p + 1) {
                    Ok((es, q)) => Ok((Val::Table(es), q)),
                    Err(e) => Err(e),
                }
            } else {
                parse_str(s, p)
            },
            Shape::Unit => parse_unit(s, p),
            Shape::Bool => parse_bool(s, p),
            Shape::Signed(w) => parse_int(w, s, p),
            Shape::Unsigned(w) => parse_uint(w, s, p),
            Shape::Str => parse_str(s, p),
            Shape::Optional(inner) => if has_at(s, p, null_lit()) {
                Ok((Val::Null, p + 4))
            } else {
                parse(*inner, s, p)
            },
            Shape::Array(el) => if p < s.len() && s[p] == ARRAY_START {
                match parse_items(*el, s, p + 1) {
                    Ok((vs, q)) => Ok((Val::Array(vs), q)),
                    Err(e) => Err(e),
                }
            } else {
                Err(Error::ExpectedArrayStart)
            },
            Shape::Table(_) | Shape::Record(_) => if p < s.len() && s[p] == TABLE_START {
                match parse_entries(sh, s, p + 1) {
                    Ok((es, q)) => Ok((Val::Table(es), q)),
                    Err(e) => Err(e),
                }
            } else {
                Err(Error::ExpectedMapStart)
            },
            Shape::Union(_) => if p < s.len() && !is_sentinel(s[p]) {
                Ok((Val::Tag(s.subrange(p, str_end(s, p))), str_end(s, p)))
            } else if p == s.len() {
                Err(Error::Eof)
            } else if s[p] != TABLE_START {
                Err(Error::Parse(Expected::Union))
            } else if p + 1 == s.len() || s[p + 1] != VAR {
                Err(Error::ExpectedVar)
            } else {
                let ke = str_end(s, p + 2);
                if ke >= s.len() || s[ke] != VAL {
                    Err(Error::ExpectedVal)
                } else {
                    let key = lower(s.subrange(p + 2, ke));
                    match parse(entry_shape(sh, key), s, ke + 1) {
                        Ok((v, q)) => if 0 <= q < s.len() && s[q] == TABLE_END {
                            Ok((Val::Variant(key, Box::new(v)), q + 1))
                        } else {
                            Err(Error::ExpectedMapEnd)
                        },
                        Err(e) => Err(e),
                    }
                }
            },
        }
    }
}

/// Reads array elements, each after a `VAL`, and the `ARRAY_END` after them;
/// where neither `ARRAY_END` nor `VAL` comes, the `VAL` is missing.
pub open spec fn parse_items(el: Shape, s: Seq<u8>, p: int) -> Result<(Seq<Val>, int), Error>
    decreases s.len() - p, el,
{
    if p < 0 || p >= s.len() {
        Err(Error::ExpectedVal)
    } else if s[p] == ARRAY_END {
        Ok((Seq::empty(), p + 1))
    } else if s[p] != VAL {
        Err(Error::ExpectedVal)
    } else {
        match parse(el, s, p + 1) {
            Ok((v, q)) => if q <= p || q > s.len() {
                Err(Error::Eof)
            } else {
                match parse_items(el, s, q) {
                    Ok((vs, r)) => Ok((seq![v] + vs, r)),
                    Err(e) => Err(e),
                }
            },
            Err(e) => Err(e),
        }
    }
}

/// Reads table entries, `VAR key VAL value` each, and the `TABLE_END` after
/// them; keys (possibly empty) come out in lower case. Input that ends
/// between entries misses its `TABLE_END`.
pub open spec fn parse_entries(sh: Shape, s: Seq<u8>, p: int) -> Result<
    (Seq<(Seq<u8>, Val)>, int),
    Error,
>
    decreases s.len() - p, sh,
{
    if p < 0 || p >= s.len() {
        Err(Error::ExpectedMapEnd)
    } else if s[p] == TABLE_END {
        Ok((Seq::empty(), p + 1))
    } else if s[p] != VAR {
        Err(Error::ExpectedVar)
    } else {
        let ke = str_end(s, p + 1);
        if ke >= s.len() || s[ke] != VAL {
            Err(Error::ExpectedVal)
        } else {
            let key = lower(s.subrange(p + 1, ke));
            match parse(entry_shape(sh, key), s, ke + 1) {
                Ok((v, q)) => if q <= p || q > s.len() {
                    Err(Error::Eof)
                } else {
                    match parse_entries(sh, s, q) {
                        Ok((es, r)) => Ok((seq![(key, v)] + es, r)),
                        Err(e) => Err(e),
                    }
                },
                Err(e) => Err(e),
            }
        }
    }
}

/// Decoding is exact: the value must take up the whole input.
pub open spec fn decode(sh: Shape, s: Seq<u8>) -> Result<Val, Error> {
    match parse(sh, s, 0) {
        Ok((v, q)) => if q == s.len() {
            Ok(v)
        } else {
            Err(Error::TrailingBytes)
        },
        Err(e) => Err(e),
    }
}

/// The models of a run of values.
pub open spec fn view_seq(vs: Seq<Value>) -> Seq<Val> {
    Seq::new(vs.len(), |k: int| vs[k]@)
}

/// The models of a run of table entries.
pub open spec fn view_entries(es: Seq<(Vec<u8>, Value)>) -> Seq<(Seq<u8>, Val)> {
    Seq::new(es.len(), |k: int| (es[k].0@, es[k].1@))
}

/// An executable result that stands for a result of `parse`.
pub open spec fn agrees(r: Result<(Value, usize), Error>, e: Result<(Val, int), Error>) -> bool {
    match e {
        Ok((v, q)) => r matches Ok(t) && t.0@ == v && t.1 == q,
        Err(x) => r == Err::<(Value, usize), Error>(x),
    }
}

pub open spec fn agrees_items(
    r: Result<(Vec<Value>, usize), Error>,
    e: Result<(Seq<Val>, int), Error>,
) -> bool {
    match e {
        Ok((vs, q)) => r matches Ok(t) && view_seq(t.0@) == vs && t.1 == q,
        Err(x) => r == Err::<(Vec<Value>, usize), Error>(x),
    }
}

pub open spec fn agrees_entries(
    r: Result<(Vec<(Vec<u8>, Value)>, usize), Error>,
    e: Result<(Seq<(Seq<u8>, Val)>, int), Error>,
) -> bool {
    match e {
        Ok((es, q)) => r matches Ok(t) && view_entries(t.0@) == es && t.1 == q,
        Err(x) => r == Err::<(Vec<(Vec<u8>, Value)>, usize), Error>(x),
    }
}

pub open spec fn prepend_items(a: Seq<Val>, r: Result<(Seq<Val>, int), Error>) -> Result<
    (Seq<Val>, int),
    Error,
> {
    match r {
        Ok((vs, q)) => Ok((a + vs, q)),
        Err(e) => Err(e),
    }
}

pub open spec fn prepend_entries(
    a: Seq<(Seq<u8>, Val)>,
    r: Result<(Seq<(Seq<u8>, Val)>, int), Error>,
) -> Result<(Seq<(Seq<u8>, Val)>, int), Error> {
    match r {
        Ok((es, q)) => Ok((a + es, q)),
        Err(e) => Err(e),
    }
}

proof fn lemma_array_view(items: Vec<Value>)
    ensures
        Value::Array(items)@ == Val::Array(view_seq(items@)),
{
    let v = Value::Array(items);
    assert(v@ == model(v));
    match model(v) {
        Val::Array(m) => assert(m =~= view_seq(items@)),
        _ => {},
    }
}

proof fn lemma_table_view(entries: Vec<(Vec<u8>, Value)>)
    ensures
        Value::Table(entries)@ == Val::Table(view_entries(entries@)),
{
    let v = Value::Table(entries);
    assert(v@ == model(v));
    match model(v) {
        Val::Table(m) => assert(m =~= view_entries(entries@)),
        _ => {},
    }
}

proof fn lemma_digit_run(s: Seq<u8>, p: int)
    requires
        0 <= p <= s.len(),
    ensures
        p <= digit_end(s, p) <= s.len(),
        forall|j: int| p <= j < digit_end(s, p) ==> is_digit(#[trigger] s[j]),
    decreases s.len() - p,
{
    if p < s.len() && is_digit(s[p]) {
        lemma_digit_run(s, p + 1);
    }
}

fn uint_limit(w: Width) -> (r: u64)
    ensures
        r as int == uint_high(w),
{
    match w {
        Width::W8 => 0xff,
        Width::W16 => 0xffff,
        Width::W32 => 0xffff_ffff,
        Width::W64 => 0xffff_ffff_ffff_ffff,
    }
}

/// The largest magnitude of a signed integer of width `w` and the given sign.
fn int_limit(w: Width, neg: bool) -> (r: u64)
    ensures
        r as int == if neg {
            -int_low(w)
        } else {
            int_high(w)
        },
{
    let m: u64 = match w {
        Width::W8 => 0x80,
        Width::W16 => 0x8000,
        Width::W32 => 0x8000_0000,
        Width::W64 => 0x8000_0000_0000_0000,
    };
    if neg {
        m
    } else {
        m - 1
    }
}

fn read_unit(s: &[u8], p: usize) -> (r: Result<(Value, usize), Error>)
    requires
        p <= s@.len(),
    ensures
        agrees(r, parse_unit(s@, p as int)),
        r matches Ok(t) ==> t.1 <= s@.len(),
{
    let lit = vec![78u8, 85, 76, 76];
    assert(lit@ =~= null_lit());
    if match_literal(s, p, lit.as_slice()) {
        assert(p + 4 <= s.len());
        Ok((Value::Null, p + 4))
    } else {
        Err(Error::Parse(Expected::Null))
    }
}

fn read_bool(s: &[u8], p: usize) -> (r: Result<(Value, usize), Error>)
    requires
        p <= s@.len(),
    ensures
        agrees(r, parse_bool(s@, p as int)),
        r matches Ok(t) ==> t.1 <= s@.len(),
{
    let t = vec![84u8, 82, 85, 69];
    assert(t@ =~= true_lit());
    let f = vec![70u8, 65, 76, 83, 69];
    assert(f@ =~= false_lit());
    if match_literal(s, p, t.as_slice()) {
        assert(p + 4 <= s.len());
        Ok((Value::Bool(true), p + 4))
    } else if match_literal(s, p, f.as_slice()) {
        assert(p + 5 <= s.len());
        Ok((Value::Bool(false), p + 5))
    } else {
        Err(Error::Parse(Expected::Boolean))
    }
}

fn read_uint(w: Width, s: &[u8], p: usize) -> (r: Result<(Value, usize), Error>)
    requires
        p <= s@.len(),
    ensures
        agrees(r, parse_uint(w, s@, p as int)),
        r matches Ok(t) ==> t.1 <= s@.len(),
{
    let e = scan_digit_end(s, p);
    proof {
        lemma_digit_run(s@, p as int);
    }
    if e <= p {
        return Err(Error::Parse(Expected::Integer));
    }
    match decimal(s, p, e) {
        None => Err(Error::Parse(Expected::Integer)),
        Some(n) => if n > uint_limit(w) {
            Err(Error::Parse(Expected::Integer))
        } else {
            Ok((Value::UInt(n), e))
        },
    }
}

fn read_int(w: Width, s: &[u8], p: usize) -> (r: Result<(Value, usize), Error>)
    requires
        p <= s@.len(),
    ensures
        agrees(r, parse_int(w, s@, p as int)),
        r matches Ok(t) ==> t.1 <= s@.len(),
{
    let neg = p < s.len() && s[p] == 45;
    let d = if neg {
        p + 1
    } else {
        p
    };
    let e = scan_digit_end(s, d);
    proof {
        lemma_digit_run(s@, d as int);
    }
    if e <= d {
        return Err(Error::Parse(Expected::Integer));
    }
    match decimal(s, d, e) {
        None => Err(Error::Parse(Expected::Integer)),
        Some(n) => if n > int_limit(w, neg) {
            Err(Error::Parse(Expected::Integer))
        } else {
            let i: i64 = if neg {
                if n == 0x8000_0000_0000_0000u64 {
                    i64::MIN
                } else {
                    -(n as i64)
                }
            } else {
                n as i64
            };
            Ok((Value::Int(i), e))
        },
    }
}

fn read_str(s: &[u8], p: usize) -> (r: Result<(Value, usize), Error>)
    requires
        p <= s@.len(),
    ensures
        agrees(r, parse_str(s@, p as int)),
        r matches Ok(t) ==> t.1 <= s@.len(),
{
    let e = scan_str_end(s, p);
    Ok((Value::Str(copy_bytes(s, p, e)), e))
}

fn bytes_eq(a: &[u8], b: &[u8]) -> (r: bool)
    ensures
        r == (a@ == b@),
{
    if a.len() != b.len() {
        return false;
    }
    let mut i: usize = 0;
    while i < a.len()
        invariant
            i <= a@.len(),
            a@.len() == b@.len(),
            forall|j: int| 0 <= j < i ==> a@[j] == b@[j],
        decreases a.len() - i,
    {
        if a[i] != b[i] {
            return false;
        }
        i = i + 1;
    }
    assert(a@ =~= b@);
    true
}

/// The shape listed under `key`; `None` where the list has none, which
/// stands for `Shape::Any`.
fn find_shape<'a>(list: &'a Vec<(Vec<u8>, Shape)>, key: &[u8]) -> (r: Option<&'a Shape>)
    ensures
        match r {
            Some(x) => *x == lookup(list@, key@),
            None => lookup(list@, key@) == Shape::Any,
        },
{
    let mut i: usize = 0;
    assert(list@.skip(0) =~= list@);
    while i < list.len()
        invariant
            i <= list@.len(),
            lookup(list@, key@) == lookup(list@.skip(i as int), key@),
        decreases list.len() - i,
    {
        assert(list@.skip(i as int).drop_first() =~= list@.skip(i as int + 1));
        if bytes_eq(list[i].0.as_slice(), key) {
            return Some(&list[i].1);
        }
        i = i + 1;
    }
    None
}

/// The shape of the value under `key` in a table or union of shape `sh`.
fn find_entry_shape<'a>(sh: &'a Shape, key: &[u8]) -> (r: Option<&'a Shape>)
    ensures
        match r {
            Some(x) => *x == entry_shape(*sh, key@),
            None => entry_shape(*sh, key@) == Shape::Any,
        },
{
    match sh {
        Shape::Table(d) => Some(&**d),
        Shape::Record(fields) => find_shape(fields, key),
        Shape::Union(members) => find_shape(members, key),
        _ => None,
    }
}

/// Reads the value of shape `sh` at `p`, as `parse` describes.
fn read_value(sh: &Shape, s: &[u8], p: usize) -> (r: Result<(Value, usize), Error>)
    requires
        p <= s@.len(),
    ensures
        agrees(r, parse(*sh, s@, p as int)),
        r matches Ok(t) ==> t.1 <= s@.len(),
    decreases s@.len() - p, *sh,
{
    match sh {
        Shape::Any => {
            if p == s.len() {
                return Err(Error::Eof);
            }
            let b = s[p];
            if b == 78 {
                read_unit(s, p)
            } else if b == 84 || b == 70 {
                read_bool(s, p)
            } else if 48 <= b && b <= 57 {
                read_uint(Width::W64, s, p)
            } else if b == 45 {
                read_int(Width::W64, s, p)
            } else if b == ARRAY_START {
                match read_items(&Shape::Any, s, p + 1) {
                    Ok((items, q)) => {
                        proof {
                            lemma_array_view(items);
                        }
                        Ok((Value::Array(items), q))
                    },
                    Err(e) => Err(e),
                }
            } else if b == TABLE_START {
                match read_entries(&Shape::Any, s, p + 1) {
                    Ok((entries, q)) => {
                        proof {
                            lemma_table_view(entries);
                        }
                        Ok((Value::Table(entries), q))
                    },
                    Err(e) => Err(e),
                }
            } else {
                read_str(s, p)
            }
        },
        Shape::Unit => read_unit(s, p),
        Shape::Bool => read_bool(s, p),
        Shape::Signed(w) => read_int(*w, s, p),
        Shape::Unsigned(w) => read_uint(*w, s, p),
        Shape::Str => read_str(s, p),
        Shape::Optional(inner) => {
            let lit = vec![78u8, 85, 76, 76];
            assert(lit@ =~= null_lit());
            if match_literal(s, p, lit.as_slice()) {
                assert(p + 4 <= s.len());
                Ok((Value::Null, p + 4))
            } else {
                read_value(inner, s, p)
            }
        },
        Shape::Array(el) => {
            if p < s.len() && s[p] == ARRAY_START {
                match read_items(el, s, p + 1) {
                    Ok((items, q)) => {
                        proof {
                            lemma_array_view(items);
                        }
                        Ok((Value::Array(items), q))
                    },
                    Err(e) => Err(e),
                }
            } else {
                Err(Error::ExpectedArrayStart)
            }
        },
        Shape::Table(_) | Shape::Record(_) => {
            if p < s.len() && s[p] == TABLE_START {
                match read_entries(sh, s, p + 1) {
                    Ok((entries, q)) => {
                        proof {
                            lemma_table_view(entries);
                        }
                        Ok((Value::Table(entries), q))
                    },
                    Err(e) => Err(e),
                }
            } else {
                Err(Error::ExpectedMapStart)
            }
        },
        Shape::Union(_) => {
            if p < s.len() && !(1 <= s[p] && s[p] <= 6) {
                let e = scan_str_end(s, p);
                return Ok((Value::Tag(copy_bytes(s, p, e)), e));
            }
            if p == s.len() {
                return Err(Error::Eof);
            }
            if s[p] != TABLE_START {
                return Err(Error::Parse(Expected::Union));
            }
            if p + 1 == s.len() || s[p + 1] != VAR {
                return Err(Error::ExpectedVar);
            }
            let ke = scan_str_end(s, p + 2);
            if ke >= s.len() || s[ke] != VAL {
                return Err(Error::ExpectedVal);
            }
            let key = lower_bytes(s, p + 2, ke);
            let found = find_entry_shape(sh, key.as_slice());
            let res = match found {
                Some(x) => read_value(x, s, ke + 1),
                None => read_value(&Shape::Any, s, ke + 1),
            };
            match res {
                Ok((v, q)) => {
                    if q < s.len() && s[q] == TABLE_END {
                        let ghost payload = v@;
                        let r = Value::Variant(key, Box::new(v));
                        assert(r@ == Val::Variant(lower(s@.subrange(p + 2, ke as int)), Box::new(payload)));
                        Ok((r, q + 1))
                    } else {
                        Err(Error::ExpectedMapEnd)
                    }
                },
                Err(e) => Err(e),
            }
        },
    }
}

/// Reads array elements and the `ARRAY_END` after them, as `parse_items`
/// describes.
fn read_items(el: &Shape, s: &[u8], p0: usize) -> (r: Result<(Vec<Value>, usize), Error>)
    requires
        p0 <= s@.len(),
    ensures
        agrees_items(r, parse_items(*el, s@, p0 as int)),
        r matches Ok(t) ==> t.1 <= s@.len(),
    decreases s@.len() - p0, *el,
{
    let mut acc: Vec<Value> = Vec::new();
    let mut p: usize = p0;
    assert(view_seq(acc@) =~= Seq::<Val>::empty());
    assert(prepend_items(Seq::empty(), parse_items(*el, s@, p as int)) =~= parse_items(*el, s@, p as int));
    while p < s.len() && s[p] != ARRAY_END
        invariant
            p0 <= p <= s@.len(),
            parse_items(*el, s@, p0 as int) == prepend_items(
                view_seq(acc@),
                parse_items(*el, s@, p as int),
            ),
        decreases s@.len() - p,
    {
        if s[p] != VAL {
            return Err(Error::ExpectedVal);
        }
        match read_value(el, s, p + 1) {
            Err(e) => {
                return Err(e);
            },
            Ok((v, q)) => {
                if q <= p {
                    return Err(Error::Eof);
                }
                let ghost before = view_seq(acc@);
                let ghost x = v@;
                acc.push(v);
                assert(view_seq(acc@) =~= before.push(x));
                proof {
                    match parse_items(*el, s@, q as int) {
                        Ok((vs, r)) => {
                            assert(before + (seq![x] + vs) =~= before.push(x) + vs);
                        },
                        Err(e) => {},
                    }
                }
                p = q;
            },
        }
    }
    if p >= s.len() {
        return Err(Error::ExpectedVal);
    }
    assert(view_seq(acc@) + Seq::<Val>::empty() =~= view_seq(acc@));
    Ok((acc, p + 1))
}

/// Reads table entries and the `TABLE_END` after them, as `parse_entries`
/// describes.
fn read_entries(sh: &Shape, s: &[u8], p0: usize) -> (r: Result<
    (Vec<(Vec<u8>, Value)>, usize),
    Error,
>)
    requires
        p0 <= s@.len(),
    ensures
        agrees_entries(r, parse_entries(*sh, s@, p0 as int)),
        r matches Ok(t) ==> t.1 <= s@.len(),
    decreases s@.len() - p0, *sh,
{
    let mut acc: Vec<(Vec<u8>, Value)> = Vec::new();
    let mut p: usize = p0;
    assert(view_entries(acc@) =~= Seq::<(Seq<u8>, Val)>::empty());
    assert(prepend_entries(Seq::empty(), parse_entries(*sh, s@, p as int)) =~= parse_entries(
        *sh,
        s@,
        p as int,
    ));
    while p < s.len() && s[p] != TABLE_END
        invariant
            p0 <= p <= s@.len(),
            parse_entries(*sh, s@, p0 as int) == prepend_entries(
                view_entries(acc@),
                parse_entries(*sh, s@, p as int),
            ),
        decreases s@.len() - p,
    {
        if s[p] != VAR {
            return Err(Error::ExpectedVar);
        }
        let ke = scan_str_end(s, p + 1);
        if ke >= s.len() || s[ke] != VAL {
            return Err(Error::ExpectedVal);
        }
        let key = lower_bytes(s, p + 1, ke);
        let found = find_entry_shape(sh, key.as_slice());
        let res = match found {
            Some(x) => read_value(x, s, ke + 1),
            None => read_value(&Shape::Any, s, ke + 1),
        };
        match res {
            Err(e) => {
                return Err(e);
            },
            Ok((v, q)) => {
                if q <= p {
                    return Err(Error::Eof);
                }
                let ghost before = view_entries(acc@);
                let ghost x = (key@, v@);
                acc.push((key, v));
                assert(view_entries(acc@) =~= before.push(x));
                proof {
                    match parse_entries(*sh, s@, q as int) {
                        Ok((es, r)) => {
                            assert(before + (seq![x] + es) =~= before.push(x) + es);
                        },
                        Err(e) => {},
                    }
                }
                p = q;
            },
        }
    }
    if p >= s.len() {
        return Err(Error::ExpectedMapEnd);
    }
    assert(view_entries(acc@) + Seq::<(Seq<u8>, Val)>::empty() =~= view_entries(acc@));
    Ok((acc, p + 1))
}

/// An MSDP deserializer: a cursor over a borrowed input.
pub struct Deserializer<'de> {
    input: &'de [u8],
    pos: usize,
}

impl<'de> Deserializer<'de> {
    /// The whole input.
    pub closed spec fn data(&self) -> Seq<u8> {
        self.input@
    }

    /// How far the cursor has come.
    pub closed spec fn position(&self) -> int {
        self.pos as int
    }

    pub closed spec fn wf(&self) -> bool {
        self.pos <= self.input@.len()
    }

    /// A well-formed cursor stands within its input.
    pub proof fn lemma_cursor_bounds(&self)
        requires
            self.wf(),
        ensures
            0 <= self.position() <= self.data().len(),
    {
    }

    /// A cursor at the start of `input`.
    pub fn from_slice(input: &'de [u8]) -> (r: Self)
        ensures
            r.wf(),
            r.data() == input@,
            r.position() == 0,
    {
        Deserializer { input, pos: 0 }
    }

    /// The byte under the cursor, which stays where it is.
    pub fn peek_byte(&mut self) -> (r: Result<u8, Error>)
        requires
            old(self).wf(),
        ensures
            *final(self) == *old(self),
            old(self).position() < old(self).data().len() ==> r == Ok::<u8, Error>(
                old(self).data()[old(self).position()],
            ),
            old(self).position() >= old(self).data().len() ==> r == Err::<u8, Error>(Error::Eof),
    {
        if self.pos < self.input.len() {
            Ok(self.input[self.pos])
        } else {
            Err(Error::Eof)
        }
    }

    /// The byte under the cursor, which moves past it.
    pub fn next_byte(&mut self) -> (r: Result<u8, Error>)
        requires
            old(self).wf(),
        ensures
            final(self).wf(),
            final(self).data() == old(self).data(),
            old(self).position() < old(self).data().len() ==> r == Ok::<u8, Error>(
                old(self).data()[old(self).position()],
            ) && final(self).position() == old(self).position() + 1,
            old(self).position() >= old(self).data().len() ==> r == Err::<u8, Error>(Error::Eof)
                && final(self).position() == old(self).position(),
    {
        if self.pos < self.input.len() {
            let b = self.input[self.pos];
            self.pos = self.pos + 1;
            Ok(b)
        } else {
            Err(Error::Eof)
        }
    }

    /// Reads one value of shape `shape` at the cursor and moves past it; on
    /// failure the cursor stays.
    pub fn deserialize(&mut self, shape: &Shape) -> (r: Result<Value, Error>)
        requires
            old(self).wf(),
        ensures
            final(self).wf(),
            final(self).data() == old(self).data(),
            match parse(*shape, old(self).data(), old(self).position()) {
                Ok((v, q)) => r matches Ok(x) && x@ == v && final(self).position() == q,
                Err(e) => r == Err::<Value, Error>(e) && final(self).position() == old(
                    self,
                ).position(),
            },
    {
        match read_value(shape, self.input, self.pos) {
            Ok((v, q)) => {
                self.pos = q;
                Ok(v)
            },
            Err(e) => Err(e),
        }
    }

    /// Moves past `NULL` where it stands at the cursor; says whether it did.
    pub fn take_null(&mut self) -> (r: bool)
        requires
            old(self).wf(),
        ensures
            final(self).wf(),
            final(self).data() == old(self).data(),
            r == has_at(old(self).data(), old(self).position(), null_lit()),
            final(self).position() == if r {
                old(self).position() + 4
            } else {
                old(self).position()
            },
    {
        let lit = vec![78u8, 85, 76, 76];
        assert(lit@ =~= null_lit());
        if match_literal(self.input, self.pos, lit.as_slice()) {
            assert(self.pos + 4 <= self.input.len());
            self.pos = self.pos + 4;
            true
        } else {
            false
        }
    }

    /// Moves past the `ARRAY_START` that must stand at the cursor.
    pub fn open_array(&mut self) -> (r: Result<(), Error>)
        requires
            old(self).wf(),
        ensures
            final(self).wf(),
            final(self).data() == old(self).data(),
            ({
                let (d, p) = (old(self).data(), old(self).position());
                if p < d.len() && d[p] == ARRAY_START {
                    r is Ok && final(self).position() == p + 1
                } else {
                    r == Err::<(), Error>(Error::ExpectedArrayStart) && final(self).position() == p
                }
            }),
    {
        if self.pos < self.input.len() && self.input[self.pos] == ARRAY_START {
            self.pos = self.pos + 1;
            Ok(())
        } else {
            Err(Error::ExpectedArrayStart)
        }
    }

    /// Inside an array: `true` after moving past the `VAL` before an
    /// element; `false` where `ARRAY_END` stands at the cursor, which stays
    /// there for `close_array`.
    pub fn next_item(&mut self) -> (r: Result<bool, Error>)
        requires
            old(self).wf(),
        ensures
            final(self).wf(),
            final(self).data() == old(self).data(),
            ({
                let (d, p) = (old(self).data(), old(self).position());
                if p < d.len() && d[p] == ARRAY_END {
                    r == Ok::<bool, Error>(false) && final(self).position() == p
                } else if p < d.len() && d[p] == VAL {
                    r == Ok::<bool, Error>(true) && final(self).position() == p + 1
                } else {
                    r == Err::<bool, Error>(Error::ExpectedVal) && final(self).position() == p
                }
            }),
    {
        if self.pos < self.input.len() && self.input[self.pos] == ARRAY_END {
            Ok(false)
        } else if self.pos < self.input.len() && self.input[self.pos] == VAL {
            self.pos = self.pos + 1;
            Ok(true)
        } else {
            Err(Error::ExpectedVal)
        }
    }

    /// Moves past the `ARRAY_END` that must close an array.
    pub fn close_array(&mut self) -> (r: Result<(), Error>)
        requires
            old(self).wf(),
        ensures
            final(self).wf(),
            final(self).data() == old(self).data(),
            ({
                let (d, p) = (old(self).data(), old(self).position());
                if p < d.len() && d[p] == ARRAY_END {
                    r is Ok && final(self).position() == p + 1
                } else {
                    r == Err::<(), Error>(Error::ExpectedArrayEnd) && final(self).position() == p
                }
            }),
    {
        if self.pos < self.input.len() && self.input[self.pos] == ARRAY_END {
            self.pos = self.pos + 1;
            Ok(())
        } else {
            Err(Error::ExpectedArrayEnd)
        }
    }

    /// Moves past the `TABLE_START` that must stand at the cursor.
    pub fn open_table(&mut self) -> (r: Result<(), Error>)
        requires
            old(self).wf(),
        ensures
            final(self).wf(),
            final(self).data() == old(self).data(),
            ({
                let (d, p) = (old(self).data(), old(self).position());
                if p < d.len() && d[p] == TABLE_START {
                    r is Ok && final(self).position() == p + 1
                } else {
                    r == Err::<(), Error>(Error::ExpectedMapStart) && final(self).position() == p
                }
            }),
    {
        if self.pos < self.input.len() && self.input[self.pos] == TABLE_START {
            self.pos = self.pos + 1;
            Ok(())
        } else {
            Err(Error::ExpectedMapStart)
        }
    }

    /// Inside a table: the next key in lower case, after moving past
    /// `VAR key VAL`; `None` where `TABLE_END` stands at the cursor, which
    /// stays there for `close_table`.
    pub fn next_key(&mut self) -> (r: Result<Option<Vec<u8>>, Error>)
        requires
            old(self).wf(),
        ensures
            final(self).wf(),
            final(self).data() == old(self).data(),
            ({
                let (d, p) = (old(self).data(), old(self).position());
                let ke = str_end(d, p + 1);
                if p >= d.len() {
                    r == Err::<Option<Vec<u8>>, Error>(Error::ExpectedMapEnd)
                        && final(self).position() == p
                } else if d[p] == TABLE_END {
                    r == Ok::<Option<Vec<u8>>, Error>(None) && final(self).position() == p
                } else if d[p] != VAR {
                    r == Err::<Option<Vec<u8>>, Error>(Error::ExpectedVar)
                        && final(self).position() == p
                } else if ke >= d.len() || d[ke] != VAL {
                    r == Err::<Option<Vec<u8>>, Error>(Error::ExpectedVal)
                        && final(self).position() == p
                } else {
                    r matches Ok(Some(k)) && k@ == lower(d.subrange(p + 1, ke))
                        && final(self).position() == ke + 1
                }
            }),
    {
        let s = self.input;
        let p = self.pos;
        if p >= s.len() {
            return Err(Error::ExpectedMapEnd);
        }
        if s[p] == TABLE_END {
            return Ok(None);
        }
        if s[p] != VAR {
            return Err(Error::ExpectedVar);
        }
        let ke = scan_str_end(s, p + 1);
        if ke >= s.len() || s[ke] != VAL {
            return Err(Error::ExpectedVal);
        }
        let key = lower_bytes(s, p + 1, ke);
        self.pos = ke + 1;
        Ok(Some(key))
    }

    /// Moves past the `TABLE_END` that must close a table.
    pub fn close_table(&mut self) -> (r: Result<(), Error>)
        requires
            old(self).wf(),
        ensures
            final(self).wf(),
            final(self).data() == old(self).data(),
            ({
                let (d, p) = (old(self).data(), old(self).position());
                if p < d.len() && d[p] == TABLE_END {
                    r is Ok && final(self).position() == p + 1
                } else {
                    r == Err::<(), Error>(Error::ExpectedMapEnd) && final(self).position() == p
                }
            }),
    {
        if self.pos < self.input.len() && self.input[self.pos] == TABLE_END {
            self.pos = self.pos + 1;
            Ok(())
        } else {
            Err(Error::ExpectedMapEnd)
        }
    }

    /// Opens a union value: a bare member name, after moving past it, with
    /// `false`; or the lower-case name of a one-entry table, after moving
    /// past `TABLE_START VAR name VAL`, with `true`: its payload follows.
    pub fn open_union(&mut self) -> (r: Result<(Vec<u8>, bool), Error>)
        requires
            old(self).wf(),
        ensures
            final(self).wf(),
            final(self).data() == old(self).data(),
            ({
                let (d, p) = (old(self).data(), old(self).position());
                let ke = str_end(d, p + 2);
                if p < d.len() && !is_sentinel(d[p]) {
                    r matches Ok((n, false)) && n@ == d.subrange(p, str_end(d, p))
                        && final(self).position() == str_end(d, p)
                } else if p >= d.len() {
                    r == Err::<(Vec<u8>, bool), Error>(Error::Eof) && final(self).position() == p
                } else if d[p] != TABLE_START {
                    r == Err::<(Vec<u8>, bool), Error>(Error::Parse(Expected::Union))
                        && final(self).position() == p
                } else if p + 1 == d.len() || d[p + 1] != VAR {
                    r == Err::<(Vec<u8>, bool), Error>(Error::ExpectedVar)
                        && final(self).position() == p
                } else if ke >= d.len() || d[ke] != VAL {
                    r == Err::<(Vec<u8>, bool), Error>(Error::ExpectedVal)
                        && final(self).position() == p
                } else {
                    r matches Ok((n, true)) && n@ == lower(d.subrange(p + 2, ke))
                        && final(self).position() == ke + 1
                }
            }),
    {
        let s = self.input;
        let p = self.pos;
        if p < s.len() && !(1 <= s[p] && s[p] <= 6) {
            let e = scan_str_end(s, p);
            self.pos = e;
            return Ok((copy_bytes(s, p, e), false));
        }
        if p >= s.len() {
            return Err(Error::Eof);
        }
        if s[p] != TABLE_START {
            return Err(Error::Parse(Expected::Union));
        }
        if p + 1 == s.len() || s[p + 1] != VAR {
            return Err(Error::ExpectedVar);
        }
        let ke = scan_str_end(s, p + 2);
        if ke >= s.len() || s[ke] != VAL {
            return Err(Error::ExpectedVal);
        }
        let name = lower_bytes(s, p + 2, ke);
        self.pos = ke + 1;
        Ok((name, true))
    }

    /// Moves past the `TABLE_END` that must close a union's one-entry table.
    pub fn close_union(&mut self) -> (r: Result<(), Error>)
        requires
            old(self).wf(),
        ensures
            final(self).wf(),
            final(self).data() == old(self).data(),
            ({
                let (d, p) = (old(self).data(), old(self).position());
                if p < d.len() && d[p] == TABLE_END {
                    r is Ok && final(self).position() == p + 1
                } else {
                    r == Err::<(), Error>(Error::ExpectedMapEnd) && final(self).position() == p
                }
            }),
    {
        if self.pos < self.input.len() && self.input[self.pos] == TABLE_END {
            self.pos = self.pos + 1;
            Ok(())
        } else {
            Err(Error::ExpectedMapEnd)
        }
    }

    /// Succeeds where the cursor has reached the end of the input.
    pub fn end(&self) -> (r: Result<(), Error>)
        requires
            self.wf(),
        ensures
            r == if self.position() == self.data().len() {
                Ok::<(), Error>(())
            } else {
                Err(Error::TrailingBytes)
            },
    {
        if self.pos == self.input.len() {
            Ok(())
        } else {
            Err(Error::TrailingBytes)
        }
    }
}

/// Decodes a whole input as one value of shape `shape`; bytes left after the
/// value are an error.
pub fn from_slice(input: &[u8], shape: &Shape) -> (r: Result<Value, Error>)
    ensures
        match decode(*shape, input@) {
            Ok(v) => r matches Ok(x) && x@ == v,
            Err(e) => r == Err::<Value, Error>(e),
        },
{
    let mut deserializer = Deserializer::from_slice(input);
    let t = deserializer.deserialize(shape)?;
    match deserializer.end() {
        Ok(()) => Ok(t),
        Err(e) => Err(e),
    }
}

} // verus!
