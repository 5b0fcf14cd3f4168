use vstd::prelude::*;
use crate::de::{parse, parse_items, parse_entries, parse_unit, parse_bool, parse_uint, parse_int, parse_str, decode};
use crate::value::Shape;
use crate::wire::{
    VAR, VAL, is_sentinel, lower, lower_byte, str_run, str_end, digit_end, has_at,
};

verus! {

/// Whether byte `j` of `s` belongs to a key: it is no sentinel, and the run
/// of non-sentinel bytes it stands in comes right after a `VAR`.
pub open spec fn in_key(s: Seq<u8>, j: int) -> bool
    decreases j,
{
    if j <= 0 || j >= s.len() || is_sentinel(s[j]) {
        false
    } else {
        s[j - 1] == VAR || in_key(s, j - 1)
    }
}

/// `s` with the bytes of its keys (and member names) in ASCII lower case.
pub open spec fn lower_keys(s: Seq<u8>) -> Seq<u8> {
    Seq::new(
        s.len(),
        |j: int|
            if in_key(s, j) {
                lower_byte(s[j])
            } else {
                s[j]
            },
    )
}

proof fn lemma_same_frame(s: Seq<u8>, j: int)
    requires
        0 <= j < s.len(),
    ensures
        is_sentinel(lower_keys(s)[j]) == is_sentinel(s[j]),
        is_sentinel(s[j]) ==> lower_keys(s)[j] == s[j],
{
}

proof fn lemma_str_run_eq(s: Seq<u8>, k: int)
    ensures
        str_run(s, k) == str_run(lower_keys(s), k),
    decreases s.len() - k,
{
    if 0 <= k < s.len() {
        lemma_same_frame(s, k);
        lemma_str_run_eq(s, k + 1);
    }
}

proof fn lemma_run_bytes(s: Seq<u8>, p: int, j: int)
    requires
        0 <= p <= j < str_end(s, p),
    ensures
        j < s.len(),
        !is_sentinel(s[j]),
    decreases j - p,
{
    if j > p {
        lemma_run_bytes(s, p + 1, j);
    }
}

/// From a position outside every key, the string run holds no key byte:
/// there `lower_keys` changes nothing.
proof fn lemma_run_kept(s: Seq<u8>, p: int, j: int)
    requires
        0 <= p <= j < str_end(s, p),
        !in_key(s, p),
    ensures
        !in_key(s, j),
        lower_keys(s)[j] == s[j],
    decreases j - p,
{
    lemma_run_bytes(s, p, j);
    if j > p {
        lemma_run_kept(s, p, j - 1);
        lemma_run_bytes(s, p, j - 1);
    }
}

proof fn lemma_run_stop(s: Seq<u8>, k: int)
    requires
        0 <= k <= s.len(),
    ensures
        k <= str_end(s, k) <= s.len(),
        str_end(s, k) < s.len() ==> is_sentinel(s[str_end(s, k)]),
    decreases s.len() - k,
{
    if k < s.len() && !is_sentinel(s[k]) {
        lemma_run_stop(s, k + 1);
    }
}

proof fn lemma_run_past(s: Seq<u8>, p: int, n: int)
    requires
        0 <= p,
        p + n <= s.len(),
        0 <= n,
        forall|j: int| p <= j < p + n ==> !is_sentinel(#[trigger] s[j]),
    ensures
        p + n <= str_end(s, p),
    decreases n,
{
    if n > 0 {
        lemma_run_past(s, p + 1, n - 1);
    }
}

proof fn lemma_digit_end_eq(s: Seq<u8>, t: Seq<u8>, k: int, e: int)
    requires
        s.len() == t.len(),
        0 <= k <= e <= s.len(),
        forall|j: int| k <= j < e ==> s[j] == t[j],
        e == s.len() || (is_sentinel(s[e]) && is_sentinel(t[e])),
    ensures
        digit_end(s, k) == digit_end(t, k),
    decreases e - k,
{
    if k < e {
        lemma_digit_end_eq(s, t, k + 1, e);
    }
}

proof fn lemma_has_at_eq(s: Seq<u8>, p: int, lit: Seq<u8>)
    requires
        0 <= p <= s.len(),
        !in_key(s, p),
        forall|i: int| 0 <= i < lit.len() ==> !is_sentinel(#[trigger] lit[i]),
    ensures
        has_at(s, p, lit) == has_at(lower_keys(s), p, lit),
{
    let t = lower_keys(s);
    let n = lit.len() as int;
    if has_at(s, p, lit) || has_at(t, p, lit) {
        assert forall|j: int| p <= j < p + n implies !is_sentinel(#[trigger] s[j]) by {
            if has_at(s, p, lit) {
                assert(s.subrange(p, p + n)[j - p] == s[j]);
            } else {
                assert(t.subrange(p, p + n)[j - p] == t[j]);
                lemma_same_frame(s, j);
            }
        }
        lemma_run_past(s, p, n);
        assert forall|j: int| p <= j < p + n implies t[j] == s[j] by {
            lemma_run_kept(s, p, j);
        }
        assert(s.subrange(p, p + n) =~= t.subrange(p, p + n));
    }
}

proof fn lemma_digits_in_run(s: Seq<u8>, k: int)
    requires
        0 <= k,
    ensures
        k <= digit_end(s, k) <= str_end(s, k),
    decreases s.len() - k,
{
    if 0 <= k < s.len() && 48 <= s[k] <= 57 {
        lemma_digits_in_run(s, k + 1);
    }
}

/// The scalar readers see the same bytes in `s` and `lower_keys(s)` from a
/// position outside every key.
proof fn lemma_scalars_eq(s: Seq<u8>, p: int, w: crate::value::Width)
    requires
        0 <= p <= s.len(),
        !in_key(s, p),
    ensures
        parse_unit(s, p) == parse_unit(lower_keys(s), p),
        parse_bool(s, p) == parse_bool(lower_keys(s), p),
        parse_str(s, p) == parse_str(lower_keys(s), p),
        parse_uint(w, s, p) == parse_uint(w, lower_keys(s), p),
        parse_int(w, s, p) == parse_int(w, lower_keys(s), p),
{
    let t = lower_keys(s);
    let e = str_end(s, p);
    lemma_str_run_eq(s, p);
    lemma_has_at_eq(s, p, seq![78u8, 85u8, 76u8, 76u8]);
    lemma_has_at_eq(s, p, seq![84u8, 82u8, 85u8, 69u8]);
    lemma_has_at_eq(s, p, seq![70u8, 65u8, 76u8, 83u8, 69u8]);
    assert forall|j: int| p <= j < e implies s[j] == t[j] by {
        lemma_run_kept(s, p, j);
    }
    lemma_run_stop(s, p);
    if e < s.len() {
        lemma_same_frame(s, e);
    }
    assert(s.subrange(p, e) =~= t.subrange(p, e));
    lemma_digit_end_eq(s, t, p, e);
    lemma_digits_in_run(s, p);
    let de = digit_end(s, p);
    assert(s.subrange(p, de) =~= t.subrange(p, de));
    if p < e {
        assert(str_end(s, p + 1) == e);
        lemma_digit_end_eq(s, t, p + 1, e);
        lemma_digits_in_run(s, p + 1);
        let de1 = digit_end(s, p + 1);
        assert(s.subrange(p + 1, de1) =~= t.subrange(p + 1, de1));
    } else if p < s.len() {
        lemma_same_frame(s, p);
    }
}

/// Decoding from a position outside every key gives the same result on
/// `s` and on `lower_keys(s)`.
#[verifier::rlimit(80)]
proof fn lemma_parse_keys(sh: Shape, s: Seq<u8>, p: int)
    requires
        !in_key(s, p),
    ensures
        parse(sh, s, p) == parse(sh, lower_keys(s), p),
    decreases s.len() - p, sh,
{
    if 0 <= p <= s.len() {
        let w = match sh {
            Shape::Signed(w) => w,
            Shape::Unsigned(w) => w,
            _ => crate::value::Width::W64,
        };
        lemma_scalars_eq(s, p, w);
        if p < s.len() {
            lemma_same_frame(s, p);
            if !is_sentinel(s[p]) {
                lemma_run_bytes(s, p, p);
                lemma_run_kept(s, p, p);
            }
        }
        if p + 1 < s.len() {
            lemma_same_frame(s, p + 1);
        }
        match sh {
            Shape::Any => {
                if p < s.len() {
                    lemma_items_keys(Shape::Any, s, p + 1);
                    lemma_entries_keys(Shape::Any, s, p + 1);
                }
            },
            Shape::Optional(inner) => {
                lemma_parse_keys(*inner, s, p);
            },
            Shape::Array(el) => {
                if p < s.len() {
                    lemma_items_keys(*el, s, p + 1);
                }
            },
            Shape::Table(_) | Shape::Record(_) => {
                if p < s.len() {
                    lemma_entries_keys(sh, s, p + 1);
                }
            },
            Shape::Union(_) => {
                if p + 1 < s.len() && !(p < s.len() && !is_sentinel(s[p])) {
                    lemma_str_run_eq(s, p + 2);
                    lemma_lower_run(s, p + 2);
                    let ke = str_end(s, p + 2);
                    if ke < s.len() && s[ke] == VAL {
                        lemma_same_frame(s, ke);
                        let key = lower(s.subrange(p + 2, ke));
                        lemma_parse_keys(crate::value::entry_shape(sh, key), s, ke + 1);
                        match parse(crate::value::entry_shape(sh, key), s, ke + 1) {
                            Ok((v, q)) => {
                                if 0 <= q < s.len() {
                                    lemma_same_frame(s, q);
                                }
                            },
                            Err(_) => {},
                        }
                    } else if ke < s.len() {
                        lemma_same_frame(s, ke);
                    }
                }
            },
            _ => {},
        }
    }
}

/// Lower-casing a run reads the same on `s` and on `lower_keys(s)`.
proof fn lemma_lower_run(s: Seq<u8>, a: int)
    requires
        0 <= a <= s.len(),
    ensures
        str_end(s, a) <= s.len(),
        lower(s.subrange(a, str_end(s, a))) == lower(lower_keys(s).subrange(a, str_end(s, a))),
{
    let e = str_end(s, a);
    lemma_run_stop(s, a);
    assert(lower(s.subrange(a, e)) =~= lower(lower_keys(s).subrange(a, e)));
}

proof fn lemma_items_keys(el: Shape, s: Seq<u8>, p: int)
    ensures
        parse_items(el, s, p) == parse_items(el, lower_keys(s), p),
    decreases s.len() - p, el,
{
    if 0 <= p < s.len() {
        lemma_same_frame(s, p);
        if s[p] == VAL {
            assert(!in_key(s, p + 1));
            lemma_parse_keys(el, s, p + 1);
            match parse(el, s, p + 1) {
                Ok((v, q)) => {
                    if p < q <= s.len() {
                        lemma_items_keys(el, s, q);
                    }
                },
                Err(_) => {},
            }
        }
    }
}

proof fn lemma_entries_keys(sh: Shape, s: Seq<u8>, p: int)
    ensures
        parse_entries(sh, s, p) == parse_entries(sh, lower_keys(s), p),
    decreases s.len() - p, sh,
{
    if 0 <= p < s.len() {
        lemma_same_frame(s, p);
        if s[p] == VAR {
            lemma_str_run_eq(s, p + 1);
            lemma_lower_run(s, p + 1);
            let ke = str_end(s, p + 1);
            if ke < s.len() {
                lemma_same_frame(s, ke);
                if s[ke] == VAL {
                    let key = lower(s.subrange(p + 1, ke));
                    assert(!in_key(s, ke + 1));
                    lemma_parse_keys(crate::value::entry_shape(sh, key), s, ke + 1);
                    match parse(crate::value::entry_shape(sh, key), s, ke + 1) {
                        Ok((v, q)) => {
                            if p < q <= s.len() {
                                lemma_entries_keys(sh, s, q);
                            }
                        },
                        Err(_) => {},
                    }
                }
            }
        }
    }
}

/// Key case: decoding reads a key (or member name) only in lower case, so
/// input whose keys are lower-cased decodes to the same result.
pub proof fn lemma_key_case_decode(sh: Shape, s: Seq<u8>)
    ensures
        decode(sh, s) == decode(sh, lower_keys(s)),
{
    lemma_parse_keys(sh, s, 0);
}

} // verus!
