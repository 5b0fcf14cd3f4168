use vstd::prelude::*;
use crate::wire::{
    is_digit, str_end, digit_end, has_at, dec_value, lower, lower_byte,
};

verus! {

/// The end of the string run at `p`: the first sentinel byte or the end.
pub fn scan_str_end(s: &[u8], p: usize) -> (e: usize)
    requires
        p <= s@.len(),
    ensures
        e == str_end(s@, p as int),
        p <= e <= s@.len(),
{
    let mut i: usize = p;
    while i < s.len() && !(1 <= s[i] && s[i] <= 6)
        invariant
            p <= i <= s@.len(),
            str_end(s@, p as int) == str_end(s@, i as int),
        decreases s.len() - i,
    {
        i = i + 1;
    }
    i
}

/// The end of the digit run at `p`.
pub fn scan_digit_end(s: &[u8], p: usize) -> (e: usize)
    requires
        p <= s@.len(),
    ensures
        e == digit_end(s@, p as int),
        p <= e <= s@.len(),
{
    let mut i: usize = p;
    while i < s.len() && 48 <= s[i] && s[i] <= 57
        invariant
            p <= i <= s@.len(),
            digit_end(s@, p as int) == digit_end(s@, i as int),
        decreases s.len() - i,
    {
        i = i + 1;
    }
    i
}

/// Whether the literal `lit` stands in `s` at `p`.
pub fn match_literal(s: &[u8], p: usize, lit: &[u8]) -> (r: bool)
    requires
        p <= s@.len(),
    ensures
        r == has_at(s@, p as int, lit@),
{
    if lit.len() > s.len() - p {
        return false;
    }
    let mut k: usize = 0;
    while k < lit.len()
        invariant
            k <= lit@.len(),
            p + lit@.len() <= s@.len(),
            s@.len() <= usize::MAX,
            forall|j: int| 0 <= j < k ==> s@[p + j] == lit@[j],
        decreases lit.len() - k,
    {
        if s[p + k] != lit[k] {
            assert(s@.subrange(p as int, p + lit@.len())[k as int] != lit@[k as int]);
            return false;
        }
        k = k + 1;
    }
    assert(s@.subrange(p as int, p + lit@.len()) =~= lit@);
    true
}

proof fn lemma_dec_step(s: Seq<u8>, from: int, i: int)
    requires
        0 <= from <= i < s.len(),
    ensures
        dec_value(s.subrange(from, i + 1)) == dec_value(s.subrange(from, i)) * 10 + (s[i]
            - 48) as nat,
{
    assert(s.subrange(from, i + 1).drop_last() =~= s.subrange(from, i));
}

proof fn lemma_dec_mono(s: Seq<u8>, from: int, i: int, to: int)
    requires
        0 <= from <= i <= to <= s.len(),
        forall|j: int| from <= j < to ==> is_digit(#[trigger] s[j]),
    ensures
        dec_value(s.subrange(from, i)) <= dec_value(s.subrange(from, to)),
    decreases to - i,
{
    if i < to {
        lemma_dec_mono(s, from, i + 1, to);
        lemma_dec_step(s, from, i);
    }
}

/// The number that the digits `s[from..to]` denote, where it fits in 64 bits.
pub fn decimal(s: &[u8], from: usize, to: usize) -> (r: Option<u64>)
    requires
        from <= to <= s@.len(),
        forall|j: int| from <= j < to ==> is_digit(#[trigger] s@[j]),
    ensures
        match r {
            Some(n) => n == dec_value(s@.subrange(from as int, to as int)),
            None => dec_value(s@.subrange(from as int, to as int)) > u64::MAX,
        },
{
    let mut acc: u64 = 0;
    let mut i: usize = from;
    assert(s@.subrange(from as int, from as int).len() == 0);
    while i < to
        invariant
            from <= i <= to <= s@.len(),
            forall|j: int| from <= j < to ==> is_digit(#[trigger] s@[j]),
            acc == dec_value(s@.subrange(from as int, i as int)),
        decreases to - i,
    {
        let d: u64 = (s[i] - 48) as u64;
        proof {
            lemma_dec_step(s@, from as int, i as int);
        }
        if acc > (u64::MAX - d) / 10 {
            proof {
                lemma_dec_mono(s@, from as int, i as int + 1, to as int);
                assert(acc * 10 + d > u64::MAX) by (nonlinear_arith)
                    requires
                        acc > (u64::MAX - d) / 10,
                        d <= 9,
                ;
            }
            return None;
        }
        assert(acc * 10 + d <= u64::MAX) by (nonlinear_arith)
            requires
                acc <= (u64::MAX - d) / 10,
                d <= 9,
        ;
        acc = acc * 10 + d;
        i = i + 1;
    }
    Some(acc)
}

/// The bytes `s[from..to]` in ASCII lower case.
pub fn lower_bytes(s: &[u8], from: usize, to: usize) -> (r: Vec<u8>)
    requires
        from <= to <= s@.len(),
    ensures
        r@ == lower(s@.subrange(from as int, to as int)),
{
    let ghost t = s@.subrange(from as int, to as int);
    let mut r: Vec<u8> = Vec::new();
    let mut i: usize = from;
    while i < to
        invariant
            from <= i <= to <= s@.len(),
            t == s@.subrange(from as int, to as int),
            r@ =~= lower(t).take(i - from),
        decreases to - i,
    {
        let b = s[i];
        let l: u8 = if 65 <= b && b <= 90 {
            b + 32
        } else {
            b
        };
        assert(l == lower_byte(b));
        r.push(l);
        i = i + 1;
        assert(r@ =~= lower(t).take(i - from));
    }
    assert(lower(t).take(i - from) =~= lower(t));
    r
}

} // verus!
