use vstd::prelude::*;
use crate::de::{parse, parse_items, parse_entries, decode, prepend_items, prepend_entries};
use crate::error::Error;
use crate::ser::{enc, enc_items, enc_entries, enc_entry};
use crate::value::{Val, Shape, Width, canon, entry_shape, int_low, int_high, uint_high};
use crate::wire::{
    VAR, VAL, TABLE_START, TABLE_END, ARRAY_START, ARRAY_END,
    is_sentinel, is_digit, no_sentinel, null_lit, true_lit, digits, int_text,
    dec_value, digit_end, str_end, has_at, upper, lower,
};

verus! {

/// Strings, tags, keys and member names hold no sentinel byte; a tag, which
/// stands alone on the wire, is not empty.
pub open spec fn wf_val(v: Val) -> bool
    decreases v,
{
    match v {
        Val::Str(x) => no_sentinel(x),
        Val::Tag(x) => x.len() > 0 && no_sentinel(x),
        Val::Array(items) => forall|i: int| 0 <= i < items.len() ==> wf_val(#[trigger] items[i]),
        Val::Table(es) => forall|i: int|
            0 <= i < es.len() ==> no_sentinel((#[trigger] es[i]).0) && wf_val(es[i].1),
        Val::Variant(name, payload) => no_sentinel(name) && wf_val(*payload),
        _ => true,
    }
}

/// Whether a byte can begin a string that self-describing decoding reads
/// back as a string.
pub open spec fn plain_start(b: u8) -> bool {
    b != 78 && b != 84 && b != 70 && b != 45 && !is_digit(b) && !is_sentinel(b)
}

/// `v` is a value of shape `sh` that its encoding tells apart from the other
/// values of that shape.
pub open spec fn conforms(v: Val, sh: Shape) -> bool
    decreases v, sh,
{
    match sh {
        Shape::Any => match v {
            Val::Null => true,
            Val::Bool(_) => true,
            Val::UInt(n) => 0 <= n <= uint_high(Width::W64),
            Val::Int(i) => int_low(Width::W64) <= i < 0,
            Val::Str(x) => x.len() > 0 && plain_start(x[0]),
            Val::Array(items) => forall|i: int|
                0 <= i < items.len() ==> conforms(#[trigger] items[i], Shape::Any),
            Val::Table(es) => forall|i: int|
                0 <= i < es.len() ==> conforms((#[trigger] es[i]).1, Shape::Any),
            _ => false,
        },
        Shape::Unit => v is Null,
        Shape::Bool => v is Bool,
        Shape::Signed(w) => v matches Val::Int(i) && int_low(w) <= i <= int_high(w),
        Shape::Unsigned(w) => v matches Val::UInt(n) && 0 <= n <= uint_high(w),
        Shape::Str => v is Str,
        Shape::Optional(inner) => v is Null || (conforms(v, *inner) && !has_at(
            enc(v),
            0,
            null_lit(),
        )),
        Shape::Array(el) => v matches Val::Array(items) && forall|i: int|
            0 <= i < items.len() ==> conforms(#[trigger] items[i], *el),
        Shape::Table(_) | Shape::Record(_) => v matches Val::Table(es) && forall|i: int|
            0 <= i < es.len() ==> conforms((#[trigger] es[i]).1, entry_shape(sh, lower(es[i].0))),
        Shape::Union(_) => match v {
            Val::Tag(_) => true,
            Val::Variant(name, payload) => conforms(*payload, entry_shape(sh, lower(name))),
            _ => false,
        },
    }
}

/// The bytes after an encoded value do not run on into it: a string or tag
/// is followed by a sentinel, an integer by a non-digit, or the input ends.
pub open spec fn stops(v: Val, rest: Seq<u8>) -> bool {
    match v {
        Val::Str(_) | Val::Tag(_) => rest.len() == 0 || is_sentinel(rest[0]),
        Val::Int(_) | Val::UInt(_) => rest.len() == 0 || !is_digit(rest[0]),
        _ => true,
    }
}

proof fn lemma_digits(n: nat)
    ensures
        digits(n).len() >= 1,
        forall|j: int| 0 <= j < digits(n).len() ==> is_digit(#[trigger] digits(n)[j]),
        dec_value(digits(n)) == n,
    decreases n,
{
    if n >= 10 {
        lemma_digits(n / 10);
        assert(digits(n).drop_last() =~= digits(n / 10));
        assert(digits(n).last() == (48 + n % 10) as u8);
        assert(n == (n / 10) * 10 + n % 10);
        assert(dec_value(digits(n)) == dec_value(digits(n).drop_last()) * 10 + (digits(n).last()
            - 48) as nat);
    } else {
        assert(digits(n).drop_last() =~= Seq::<u8>::empty());
        assert(dec_value(Seq::<u8>::empty()) == 0);
        assert(dec_value(digits(n)) == dec_value(digits(n).drop_last()) * 10 + (digits(n).last()
            - 48) as nat);
    }
}

proof fn lemma_digit_end_at(s: Seq<u8>, p: int, k: int)
    requires
        0 <= p,
        0 <= k,
        p + k <= s.len(),
        forall|j: int| p <= j < p + k ==> is_digit(#[trigger] s[j]),
        p + k == s.len() || !is_digit(s[p + k]),
    ensures
        digit_end(s, p) == p + k,
    decreases k,
{
    if k > 0 {
        lemma_digit_end_at(s, p + 1, k - 1);
    }
}

proof fn lemma_str_end_at(s: Seq<u8>, p: int, k: int)
    requires
        0 <= p,
        0 <= k,
        p + k <= s.len(),
        forall|j: int| p <= j < p + k ==> !is_sentinel(#[trigger] s[j]),
        p + k == s.len() || is_sentinel(s[p + k]),
    ensures
        str_end(s, p) == p + k,
    decreases k,
{
    if k > 0 {
        lemma_str_end_at(s, p + 1, k - 1);
    }
}

/// `x` stands in `s` at `p`: so do its parts.
proof fn lemma_part(s: Seq<u8>, p: int, x: Seq<u8>, a: int, b: int)
    requires
        0 <= p,
        p + x.len() <= s.len(),
        s.subrange(p, p + x.len()) == x,
        0 <= a <= b <= x.len(),
    ensures
        s.subrange(p + a, p + b) == x.subrange(a, b),
        forall|j: int| a <= j < b ==> s[p + j] == #[trigger] x[j],
{
    assert forall|j: int| a <= j < b implies s[p + j] == #[trigger] x[j] by {
        assert(s.subrange(p, p + x.len())[j] == s[p + j]);
    }
    assert(s.subrange(p + a, p + b) =~= x.subrange(a, b));
}

proof fn lemma_digits_at(s: Seq<u8>, p: int, m: nat)
    requires
        0 <= p,
        p + digits(m).len() <= s.len(),
        s.subrange(p, p + digits(m).len()) == digits(m),
        p + digits(m).len() == s.len() || !is_digit(s[p + digits(m).len()]),
    ensures
        digit_end(s, p) == p + digits(m).len(),
        dec_value(s.subrange(p, p + digits(m).len())) == m,
        is_digit(s[p]),
{
    lemma_digits(m);
    let n = digits(m).len() as int;
    assert forall|j: int| p <= j < p + n implies is_digit(#[trigger] s[j]) by {
        assert(s.subrange(p, p + n)[j - p] == s[j]);
    }
    lemma_digit_end_at(s, p, n);
    assert(s.subrange(p, p + n)[0] == s[p]);
}

/// Reading the text of an integer back.
proof fn lemma_int_text(s: Seq<u8>, p: int, i: int)
    requires
        0 <= p,
        p + int_text(i).len() <= s.len(),
        s.subrange(p, p + int_text(i).len()) == int_text(i),
        p + int_text(i).len() == s.len() || !is_digit(s[p + int_text(i).len()]),
    ensures
        (0 <= p < s.len() && s[p] == 45) == (i < 0),
        ({
            let d = if i < 0 {
                p + 1
            } else {
                p
            };
            &&& digit_end(s, d) == p + int_text(i).len()
            &&& d < p + int_text(i).len()
            &&& dec_value(s.subrange(d, p + int_text(i).len())) == if i < 0 {
                -i
            } else {
                i
            }
        }),
{
    let t = int_text(i);
    let n = t.len() as int;
    if i < 0 {
        let m = (-i) as nat;
        lemma_digits(m);
        lemma_part(s, p, t, 0, n);
        assert(t.subrange(1, n) =~= digits(m));
        lemma_part(s, p, t, 1, n);
        lemma_digits_at(s, p + 1, m);
        assert(s[p + 0] == t[0]);
    } else {
        let m = i as nat;
        lemma_digits(m);
        lemma_digits_at(s, p, m);
    }
}

proof fn lemma_upper_key(k: Seq<u8>)
    requires
        no_sentinel(k),
    ensures
        no_sentinel(upper(k)),
        lower(upper(k)) == lower(k),
        upper(k).len() == k.len(),
{
    assert forall|i: int| 0 <= i < upper(k).len() implies !is_sentinel(#[trigger] upper(k)[i]) by {
        assert(!is_sentinel(k[i]));
    }
    assert(lower(upper(k)) =~= lower(k));
}

pub open spec fn canon_items(items: Seq<Val>) -> Seq<Val> {
    Seq::new(items.len(), |i: int| canon(items[i]))
}

pub open spec fn canon_entries(es: Seq<(Seq<u8>, Val)>) -> Seq<(Seq<u8>, Val)> {
    Seq::new(es.len(), |i: int| (lower(es[i].0), canon(es[i].1)))
}

proof fn lemma_canon_unfold(v: Val)
    ensures
        v matches Val::Array(items) ==> canon(v) == Val::Array(canon_items(items)),
        v matches Val::Table(es) ==> canon(v) == Val::Table(canon_entries(es)),
{
    match v {
        Val::Array(items) => {
            match canon(v) {
                Val::Array(m) => assert(m =~= canon_items(items)),
                _ => {},
            }
        },
        Val::Table(es) => {
            match canon(v) {
                Val::Table(m) => assert(m =~= canon_entries(es)),
                _ => {},
            }
        },
        _ => {},
    }
}

/// No `NULL` reads at the start of the encoding of a value whose encoding
/// does not begin with it.
proof fn lemma_no_null(v: Val, s: Seq<u8>, p: int)
    requires
        !(v is Null),
        wf_val(v),
        !has_at(enc(v), 0, null_lit()),
        0 <= p,
        p + enc(v).len() <= s.len(),
        s.subrange(p, p + enc(v).len()) == enc(v),
        stops(v, s.subrange(p + enc(v).len(), s.len() as int)),
    ensures
        !has_at(s, p, null_lit()),
{
    let x = enc(v);
    let n = x.len() as int;
    if has_at(s, p, null_lit()) {
        if n >= 4 {
            lemma_part(s, p, x, 0, 4);
            assert(s.subrange(p, p + 4) == null_lit());
            assert(has_at(x, 0, null_lit()));
        } else {
            lemma_part(s, p, x, 0, n);
            assert(s.subrange(p, p + 4)[0] == s[p]);
            assert(s.subrange(p, p + 4)[n] == s[p + n]);
            match v {
                Val::Str(t) => {
                    assert(s.subrange(p + n, s.len() as int)[0] == s[p + n]);
                },
                Val::Tag(t) => {
                    assert(s.subrange(p + n, s.len() as int)[0] == s[p + n]);
                },
                Val::Int(i) => {
                    lemma_int_text(s, p, i);
                    if i >= 0 {
                        assert(is_digit(s[p]));
                    }
                },
                Val::UInt(i) => {
                    lemma_int_text(s, p, i);
                },
                Val::Bool(b) => {},
                _ => {
                    assert(s[p + 0] == x[0]);
                },
            }
        }
    }
}

/// Decoding reads an encoded value back, with its keys in lower case, and
/// stops right after it.
#[verifier::rlimit(60)]
proof fn lemma_parse_enc(v: Val, sh: Shape, s: Seq<u8>, p: int)
    requires
        conforms(v, sh),
        wf_val(v),
        0 <= p,
        p + enc(v).len() <= s.len(),
        s.subrange(p, p + enc(v).len()) == enc(v),
        stops(v, s.subrange(p + enc(v).len(), s.len() as int)),
    ensures
        parse(sh, s, p) == Ok::<(Val, int), Error>((canon(v), p + enc(v).len())),
    decreases v, sh,
{
    let x = enc(v);
    let n = x.len() as int;
    let e = p + n;
    lemma_canon_unfold(v);
    if e < s.len() {
        assert(s.subrange(e, s.len() as int)[0] == s[e]);
    }
    match sh {
        Shape::Optional(inner) => {
            if v is Null {
                lemma_part(s, p, x, 0, n);
            } else {
                lemma_no_null(v, s, p);
                lemma_parse_enc(v, *inner, s, p);
            }
            return;
        },
        _ => {},
    }
    match v {
        Val::Null => {
            lemma_part(s, p, x, 0, n);
            assert(s[p + 0] == x[0]);
        },
        Val::Bool(b) => {
            lemma_part(s, p, x, 0, n);
            assert(s[p + 0] == x[0]);
            if !b {
                assert(s.subrange(p, p + 4)[0] == s[p]);
                assert(!has_at(s, p, true_lit()));
            }
        },
        Val::Int(i) => {
            lemma_int_text(s, p, i);
            lemma_part(s, p, x, 0, n);
            assert(s[p + 0] == x[0]);
            if i >= 0 {
                assert(is_digit(s[p]));
            }
        },
        Val::UInt(i) => {
            lemma_int_text(s, p, i);
            lemma_part(s, p, x, 0, n);
            assert(s[p + 0] == x[0]);
        },
        Val::Str(t) => {
            lemma_part(s, p, x, 0, n);
            assert forall|j: int| p <= j < p + n implies !is_sentinel(#[trigger] s[j]) by {
                assert(s[p + (j - p)] == x[j - p]);
            }
            lemma_str_end_at(s, p, n);
            if n > 0 {
                assert(s[p + 0] == x[0]);
            } else {
                assert(s.subrange(p, p) =~= t);
            }
        },
        Val::Tag(t) => {
            lemma_part(s, p, x, 0, n);
            assert forall|j: int| p <= j < p + n implies !is_sentinel(#[trigger] s[j]) by {
                assert(s[p + (j - p)] == x[j - p]);
            }
            lemma_str_end_at(s, p, n);
            assert(s[p + 0] == x[0]);
        },
        Val::Array(items) => {
            let el = match sh {
                Shape::Array(el) => *el,
                _ => Shape::Any,
            };
            let m = enc_items(items).len() as int;
            lemma_part(s, p, x, 0, n);
            assert(s[p + 0] == x[0]);
            assert(x.subrange(1, 1 + m) =~= enc_items(items));
            lemma_part(s, p, x, 1, 1 + m);
            assert(s[p + 1 + m] == x[1 + m]);
            lemma_parse_items(items, el, s, p + 1);
            assert(canon_items(items) + Seq::<Val>::empty() =~= canon_items(items));
        },
        Val::Table(es) => {
            let m = enc_entries(es).len() as int;
            lemma_part(s, p, x, 0, n);
            assert(s[p + 0] == x[0]);
            assert(x.subrange(1, 1 + m) =~= enc_entries(es));
            lemma_part(s, p, x, 1, 1 + m);
            assert(s[p + 1 + m] == x[1 + m]);
            lemma_parse_entries(es, sh, s, p + 1);
            assert(canon_entries(es) + Seq::<(Seq<u8>, Val)>::empty() =~= canon_entries(es));
        },
        Val::Variant(name, payload) => {
            let k = name.len() as int;
            let m = enc(*payload).len() as int;
            lemma_part(s, p, x, 0, n);
            assert(s[p + 0] == x[0]);
            assert(s[p + 1] == x[1]);
            assert(s[p + 2 + k] == x[2 + k]);
            assert(s[p + 3 + k + m] == x[3 + k + m]);
            assert(x.subrange(2, 2 + k) =~= name);
            lemma_part(s, p, x, 2, 2 + k);
            assert forall|j: int| p + 2 <= j < p + 2 + k implies !is_sentinel(#[trigger] s[j]) by {
                assert(s[p + (j - p)] == x[j - p]);
                assert(x[j - p] == name[j - p - 2]);
            }
            lemma_str_end_at(s, p + 2, k);
            assert(x.subrange(3 + k, 3 + k + m) =~= enc(*payload));
            lemma_part(s, p, x, 3 + k, 3 + k + m);
            assert(s.subrange(p + 3 + k + m, s.len() as int)[0] == s[p + 3 + k + m]);
            lemma_parse_enc(*payload, entry_shape(sh, lower(name)), s, p + 3 + k);
        },
    }
}

proof fn lemma_parse_items(items: Seq<Val>, el: Shape, s: Seq<u8>, p: int)
    requires
        forall|i: int| 0 <= i < items.len() ==> conforms(#[trigger] items[i], el),
        forall|i: int| 0 <= i < items.len() ==> wf_val(#[trigger] items[i]),
        0 <= p,
        p + enc_items(items).len() <= s.len(),
        s.subrange(p, p + enc_items(items).len()) == enc_items(items),
        p + enc_items(items).len() == s.len() || is_sentinel(s[p + enc_items(items).len()]),
    ensures
        parse_items(el, s, p) == prepend_items(
            canon_items(items),
            parse_items(el, s, p + enc_items(items).len()),
        ),
    decreases items,
{
    let x = enc_items(items);
    let n = x.len() as int;
    if items.len() == 0 {
        match parse_items(el, s, p) {
            Ok((vs, q)) => assert(canon_items(items) + vs =~= vs),
            Err(_) => {},
        }
    } else {
        let v = items[0];
        let tail = items.subrange(1, items.len() as int);
        let m = enc(v).len() as int;
        let t = enc_items(tail).len() as int;
        lemma_part(s, p, x, 0, n);
        assert(s[p + 0] == x[0]);
        assert(x.subrange(1, 1 + m) =~= enc(v));
        lemma_part(s, p, x, 1, 1 + m);
        assert(x.subrange(1 + m, n) =~= enc_items(tail));
        lemma_part(s, p, x, 1 + m, n);
        if t > 0 {
            assert(s[p + 1 + m] == x[1 + m]);
        }
        assert(s.subrange(p + 1 + m, s.len() as int).len() == 0 || s.subrange(
            p + 1 + m,
            s.len() as int,
        )[0] == s[p + 1 + m]);
        lemma_parse_enc(v, el, s, p + 1);
        assert forall|i: int| 0 <= i < tail.len() implies conforms(#[trigger] tail[i], el)
            && wf_val(tail[i]) by {
            assert(tail[i] == items[i + 1]);
        }
        lemma_parse_items(tail, el, s, p + 1 + m);
        match parse_items(el, s, p + n) {
            Ok((vs, q)) => {
                assert(seq![canon(v)] + (canon_items(tail) + vs) =~= canon_items(items) + vs);
            },
            Err(_) => {},
        }
    }
}

proof fn lemma_parse_entries(es: Seq<(Seq<u8>, Val)>, sh: Shape, s: Seq<u8>, p: int)
    requires
        forall|i: int|
            0 <= i < es.len() ==> conforms(
                (#[trigger] es[i]).1,
                entry_shape(sh, lower(es[i].0)),
            ),
        forall|i: int|
            0 <= i < es.len() ==> no_sentinel((#[trigger] es[i]).0) && wf_val(es[i].1),
        0 <= p,
        p + enc_entries(es).len() <= s.len(),
        s.subrange(p, p + enc_entries(es).len()) == enc_entries(es),
        p + enc_entries(es).len() == s.len() || is_sentinel(s[p + enc_entries(es).len()]),
    ensures
        parse_entries(sh, s, p) == prepend_entries(
            canon_entries(es),
            parse_entries(sh, s, p + enc_entries(es).len()),
        ),
    decreases es,
{
    let x = enc_entries(es);
    let n = x.len() as int;
    if es.len() == 0 {
        match parse_entries(sh, s, p) {
            Ok((vs, q)) => assert(canon_entries(es) + vs =~= vs),
            Err(_) => {},
        }
    } else {
        let key = es[0].0;
        let v = es[0].1;
        let tail = es.subrange(1, es.len() as int);
        let k = key.len() as int;
        let m = enc(v).len() as int;
        let t = enc_entries(tail).len() as int;
        lemma_upper_key(key);
        lemma_part(s, p, x, 0, n);
        assert(s[p + 0] == x[0]);
        assert(s[p + 1 + k] == x[1 + k]);
        assert(x.subrange(1, 1 + k) =~= upper(key));
        lemma_part(s, p, x, 1, 1 + k);
        assert forall|j: int| p + 1 <= j < p + 1 + k implies !is_sentinel(#[trigger] s[j]) by {
            assert(s[p + (j - p)] == x[j - p]);
            assert(x[j - p] == upper(key)[j - p - 1]);
        }
        lemma_str_end_at(s, p + 1, k);
        assert(x.subrange(2 + k, 2 + k + m) =~= enc(v));
        lemma_part(s, p, x, 2 + k, 2 + k + m);
        assert(x.subrange(2 + k + m, n) =~= enc_entries(tail));
        lemma_part(s, p, x, 2 + k + m, n);
        if t > 0 {
            assert(s[p + 2 + k + m] == x[2 + k + m]);
        }
        assert(s.subrange(p + 2 + k + m, s.len() as int).len() == 0 || s.subrange(
            p + 2 + k + m,
            s.len() as int,
        )[0] == s[p + 2 + k + m]);
        lemma_parse_enc(v, entry_shape(sh, lower(key)), s, p + 2 + k);
        assert forall|i: int| 0 <= i < tail.len() implies conforms(
            (#[trigger] tail[i]).1,
            entry_shape(sh, lower(tail[i].0)),
        ) && no_sentinel(tail[i].0) && wf_val(tail[i].1) by {
            assert(tail[i] == es[i + 1]);
        }
        lemma_parse_entries(tail, sh, s, p + 2 + k + m);
        match parse_entries(sh, s, p + n) {
            Ok((vs, q)) => {
                assert(seq![(lower(key), canon(v))] + (canon_entries(tail) + vs) =~= canon_entries(
                    es,
                ) + vs);
            },
            Err(_) => {},
        }
    }
}

/// Round trip: decoding the encoding of a value, as the shape it conforms
/// to, gives the value back with its table keys and member names in lower
/// case.
pub proof fn lemma_round_trip(v: Val, sh: Shape)
    requires
        conforms(v, sh),
        wf_val(v),
    ensures
        decode(sh, enc(v)) == Ok::<Val, Error>(canon(v)),
{
    let s = enc(v);
    assert(s.subrange(0, s.len() as int) =~= s);
    assert(s.subrange(s.len() as int, s.len() as int).len() == 0);
    lemma_parse_enc(v, sh, s, 0);
}

/// Over-length input: a byte after a complete encoded value, where it does
/// not continue the value's last string or number, is reported as trailing.
pub proof fn lemma_trailing_byte(v: Val, sh: Shape, b: u8)
    requires
        conforms(v, sh),
        wf_val(v),
        stops(v, seq![b]),
    ensures
        decode(sh, enc(v).push(b)) == Err::<Val, Error>(Error::TrailingBytes),
{
    let s = enc(v).push(b);
    let n = enc(v).len() as int;
    assert(s.subrange(0, n) =~= enc(v));
    assert(s.subrange(n, s.len() as int) =~= seq![b]);
    lemma_parse_enc(v, sh, s, 0);
}

/// Truncation: a table encoding without its final `TABLE_END` fails with
/// the missing-table-end error.
pub proof fn lemma_truncated_table(es: Seq<(Seq<u8>, Val)>, sh: Shape)
    requires
        conforms(Val::Table(es), sh),
        wf_val(Val::Table(es)),
    ensures
        decode(sh, enc(Val::Table(es)).drop_last()) == Err::<Val, Error>(Error::ExpectedMapEnd),
    decreases sh,
{
    let s = enc(Val::Table(es)).drop_last();
    let m = enc_entries(es).len() as int;
    assert(s =~= seq![TABLE_START] + enc_entries(es));
    assert(s.subrange(1, 1 + m) =~= enc_entries(es));
    match sh {
        Shape::Optional(inner) => {
            assert(!has_at(s, 0, null_lit())) by {
                if has_at(s, 0, null_lit()) {
                    assert(s.subrange(0, 4)[0] == s[0]);
                }
            }
            lemma_truncated_table(es, *inner);
        },
        _ => {
            lemma_parse_entries(es, sh, s, 1);
        },
    }
}

/// Key case: lower-casing twice changes nothing more, and the encoding of
/// an entry does not depend on the case of its key.
pub proof fn lemma_key_case(k: Seq<u8>, x: Val)
    ensures
        lower(lower(k)) == lower(k),
        lower(upper(k)) == lower(k),
        upper(lower(k)) == upper(k),
        enc_entry((lower(k), x)) == enc_entry((k, x)),
{
    assert(lower(lower(k)) =~= lower(k));
    assert(lower(upper(k)) =~= lower(k));
    assert(upper(lower(k)) =~= upper(k));
}

proof fn lemma_entries_case(es1: Seq<(Seq<u8>, Val)>, es2: Seq<(Seq<u8>, Val)>)
    requires
        es1.len() == es2.len(),
        forall|i: int|
            0 <= i < es1.len() ==> lower((#[trigger] es1[i]).0) == lower(es2[i].0) && es1[i].1
                == es2[i].1,
    ensures
        enc_entries(es1) == enc_entries(es2),
    decreases es1.len(),
{
    if es1.len() > 0 {
        lemma_key_case(es1[0].0, es1[0].1);
        lemma_key_case(es2[0].0, es2[0].1);
        let t1 = es1.subrange(1, es1.len() as int);
        let t2 = es2.subrange(1, es2.len() as int);
        assert forall|i: int| 0 <= i < t1.len() implies lower((#[trigger] t1[i]).0) == lower(
            t2[i].0,
        ) && t1[i].1 == t2[i].1 by {
            assert(t1[i] == es1[i + 1]);
            assert(t2[i] == es2[i + 1]);
        }
        lemma_entries_case(t1, t2);
    }
}

/// Encoding upper-cases keys whatever their case: two tables whose keys
/// differ only in ASCII case, with the same values, encode alike.
pub proof fn lemma_key_case_ignored(es1: Seq<(Seq<u8>, Val)>, es2: Seq<(Seq<u8>, Val)>)
    requires
        es1.len() == es2.len(),
        forall|i: int|
            0 <= i < es1.len() ==> lower((#[trigger] es1[i]).0) == lower(es2[i].0) && es1[i].1
                == es2[i].1,
    ensures
        enc(Val::Table(es1)) == enc(Val::Table(es2)),
{
    lemma_entries_case(es1, es2);
}

/// Decoding again what a decoder handed on leaves the keys as they are:
/// canonical keys are a fixed point.
pub proof fn lemma_canon_idempotent(v: Val)
    ensures
        canon(canon(v)) == canon(v),
    decreases v,
{
    lemma_canon_unfold(v);
    lemma_canon_unfold(canon(v));
    match v {
        Val::Array(items) => {
            assert forall|i: int| 0 <= i < items.len() implies canon(canon(items[i])) == canon(
                items[i],
            ) by {
                lemma_canon_idempotent(items[i]);
            }
            assert(canon_items(canon_items(items)) =~= canon_items(items));
        },
        Val::Table(es) => {
            assert forall|i: int| 0 <= i < es.len() implies canon(canon(es[i].1)) == canon(
                es[i].1,
            ) && lower(lower(es[i].0)) == lower(es[i].0) by {
                lemma_canon_idempotent(es[i].1);
                lemma_key_case(es[i].0, es[i].1);
            }
            assert(canon_entries(canon_entries(es)) =~= canon_entries(es));
        },
        Val::Variant(name, payload) => {
            lemma_canon_idempotent(*payload);
            lemma_key_case(name, *payload);
        },
        _ => {},
    }
}

/// Boundary: an empty table encodes to `TABLE_START TABLE_END`, an empty
/// array to `ARRAY_START ARRAY_END`.
pub proof fn lemma_empty_encodings()
    ensures
        enc(Val::Table(Seq::empty())) == seq![TABLE_START, TABLE_END],
        enc(Val::Array(Seq::empty())) == seq![ARRAY_START, ARRAY_END],
{
    assert(enc_entries(Seq::empty()) == Seq::<u8>::empty());
    assert(enc_items(Seq::empty()) == Seq::<u8>::empty());
    assert(enc(Val::Table(Seq::empty())) =~= seq![TABLE_START, TABLE_END]);
    assert(enc(Val::Array(Seq::empty())) =~= seq![ARRAY_START, ARRAY_END]);
}

proof fn lemma_parse_canonical(sh: Shape, s: Seq<u8>, p: int)
    ensures
        parse(sh, s, p) matches Ok((v, q)) ==> canon(v) == v,
    decreases s.len() - p, sh,
{
    if 0 <= p <= s.len() {
        match parse(sh, s, p) {
            Ok((v, q)) => {
                lemma_canon_unfold(v);
                match sh {
                    Shape::Any => {
                        if p < s.len() && s[p] == ARRAY_START {
                            lemma_items_canonical(Shape::Any, s, p + 1);
                        } else if p < s.len() && s[p] == TABLE_START {
                            lemma_entries_canonical(Shape::Any, s, p + 1);
                        }
                    },
                    Shape::Optional(inner) => {
                        lemma_parse_canonical(*inner, s, p);
                    },
                    Shape::Array(el) => {
                        lemma_items_canonical(*el, s, p + 1);
                    },
                    Shape::Table(_) | Shape::Record(_) => {
                        lemma_entries_canonical(sh, s, p + 1);
                    },
                    Shape::Union(_) => {
                        if !(p < s.len() && !is_sentinel(s[p])) {
                            let ke = str_end(s, p + 2);
                            let key = lower(s.subrange(p + 2, ke));
                            lemma_parse_canonical(entry_shape(sh, key), s, ke + 1);
                            lemma_key_case(s.subrange(p + 2, ke), v);
                        }
                    },
                    _ => {},
                }
                match v {
                    Val::Array(vs) => assert(canon_items(vs) =~= vs),
                    Val::Table(es) => assert(canon_entries(es) =~= es),
                    _ => {},
                }
            },
            Err(_) => {},
        }
    }
}

proof fn lemma_items_canonical(el: Shape, s: Seq<u8>, p: int)
    ensures
        parse_items(el, s, p) matches Ok((vs, q)) ==> forall|i: int|
            0 <= i < vs.len() ==> canon(#[trigger] vs[i]) == vs[i],
    decreases s.len() - p, el,
{
    if 0 <= p < s.len() && s[p] == VAL {
        lemma_parse_canonical(el, s, p + 1);
        match parse(el, s, p + 1) {
            Ok((v, q)) => {
                if p < q <= s.len() {
                    lemma_items_canonical(el, s, q);
                }
            },
            Err(_) => {},
        }
    }
}

proof fn lemma_entries_canonical(sh: Shape, s: Seq<u8>, p: int)
    ensures
        parse_entries(sh, s, p) matches Ok((es, q)) ==> forall|i: int|
            0 <= i < es.len() ==> lower((#[trigger] es[i]).0) == es[i].0 && canon(es[i].1)
                == es[i].1,
    decreases s.len() - p, sh,
{
    if 0 <= p < s.len() && s[p] == VAR {
        let ke = str_end(s, p + 1);
        if p + 1 <= ke < s.len() {
            let key = lower(s.subrange(p + 1, ke));
            lemma_key_case(s.subrange(p + 1, ke), Val::Null);
            lemma_parse_canonical(entry_shape(sh, key), s, ke + 1);
            match parse(entry_shape(sh, key), s, ke + 1) {
                Ok((v, q)) => {
                    if p < q <= s.len() {
                        lemma_entries_canonical(sh, s, q);
                    }
                },
                Err(_) => {},
            }
        }
    }
}

/// What a decoder hands on has its keys and member names in lower case
/// already: lower-casing them again changes nothing.
pub proof fn lemma_decoded_canonical(sh: Shape, s: Seq<u8>)
    ensures
        decode(sh, s) matches Ok(v) ==> canon(v) == v,
{
    lemma_parse_canonical(sh, s, 0);
}

} // verus!
