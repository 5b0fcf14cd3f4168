use vstd::prelude::*;

verus! {

/// Begins a table entry's key.
pub const VAR: u8 = 1;
/// Begins a table entry's value, or an array element.
pub const VAL: u8 = 2;
/// Begins a table.
pub const TABLE_START: u8 = 3;
/// Ends a table.
pub const TABLE_END: u8 = 4;
/// Begins an array.
pub const ARRAY_START: u8 = 5;
/// Ends an array.
pub const ARRAY_END: u8 = 6;

/// The framing bytes, which never occur inside a string run.
pub open spec fn is_sentinel(b: u8) -> bool {
    1 <= b <= 6
}

pub open spec fn is_digit(b: u8) -> bool {
    48 <= b <= 57
}

/// `NULL`
pub open spec fn null_lit() -> Seq<u8> {
    seq![78u8, 85u8, 76u8, 76u8]
}

/// `TRUE`
pub open spec fn true_lit() -> Seq<u8> {
    seq![84u8, 82u8, 85u8, 69u8]
}

/// `FALSE`
pub open spec fn false_lit() -> Seq<u8> {
    seq![70u8, 65u8, 76u8, 83u8, 69u8]
}

pub open spec fn upper_byte(b: u8) -> u8 {
    if 97 <= b <= 122 { (b - 32) as u8 } else { b }
}

pub open spec fn lower_byte(b: u8) -> u8 {
    if 65 <= b <= 90 { (b + 32) as u8 } else { b }
}

/// ASCII upper case; other bytes are kept.
pub open spec fn upper(s: Seq<u8>) -> Seq<u8> {
    Seq::new(s.len(), |i: int| upper_byte(s[i]))
}

/// ASCII lower case; other bytes are kept.
pub open spec fn lower(s: Seq<u8>) -> Seq<u8> {
    Seq::new(s.len(), |i: int| lower_byte(s[i]))
}

pub open spec fn no_sentinel(s: Seq<u8>) -> bool {
    forall|i: int| 0 <= i < s.len() ==> !is_sentinel(#[trigger] s[i])
}

/// Decimal digits of `n`, most significant first, without leading zeros.
pub open spec fn digits(n: nat) -> Seq<u8>
    decreases n,
{
    if n < 10 {
        seq![(48 + n) as u8]
    } else {
        digits(n / 10).push((48 + n % 10) as u8)
    }
}

/// Decimal text of an integer: a `-` before the digits of a negative one.
pub open spec fn int_text(i: int) -> Seq<u8> {
    if i < 0 {
        seq![45u8] + digits((-i) as nat)
    } else {
        digits(i as nat)
    }
}

/// The number that a run of decimal digits denotes.
pub open spec fn dec_value(s: Seq<u8>) -> nat
    decreases s.len(),
{
    if s.len() == 0 {
        0
    } else {
        dec_value(s.drop_last()) * 10 + (s.last() - 48) as nat
    }
}

/// The length of the string run that starts at `p`: the bytes up to the
/// first sentinel or the end of the input.
pub open spec fn str_run(s: Seq<u8>, p: int) -> nat
    decreases s.len() - p,
{
    if 0 <= p < s.len() && !is_sentinel(s[p]) {
        1 + str_run(s, p + 1)
    } else {
        0
    }
}

/// The end of the string run that starts at `p`.
pub open spec fn str_end(s: Seq<u8>, p: int) -> int {
    p + str_run(s, p)
}

/// The end of the digit run that starts at `p`.
pub open spec fn digit_end(s: Seq<u8>, p: int) -> int
    decreases s.len() - p,
{
    if 0 <= p < s.len() && is_digit(s[p]) {
        digit_end(s, p + 1)
    } else {
        p
    }
}

/// Whether `lit` stands in `s` at `p`.
pub open spec fn has_at(s: Seq<u8>, p: int, lit: Seq<u8>) -> bool {
    0 <= p && p + lit.len() <= s.len() && s.subrange(p, p + lit.len()) == lit
}

/// An owned copy of a byte slice.
pub fn copy_bytes(s: &[u8], from: usize, to: usize) -> (r: Vec<u8>)
    requires
        from <= to <= s@.len(),
    ensures
        r@ == s@.subrange(from as int, to as int),
{
    let mut r: Vec<u8> = Vec::new();
    let mut i: usize = from;
    while i < to
        invariant
            from <= i <= to <= s@.len(),
            r@ == s@.subrange(from as int, i as int),
        decreases to - i,
    {
        r.push(s[i]);
        i = i + 1;
        assert(r@ =~= s@.subrange(from as int, i as int));
    }
    r
}

} // verus!
