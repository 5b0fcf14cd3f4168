use vstd::prelude::*;
use bytes::BytesMut;
use crate::buf::{bytes_of, buf_new, buf_extend, buf_to_vec};
use crate::error::Error;
use crate::value::{Value, Val};
use crate::wire::{
    VAR, VAL, TABLE_START, TABLE_END, ARRAY_START, ARRAY_END, null_lit, true_lit, false_lit,
    int_text, digits, upper, upper_byte,
};

verus! {

/// The wire encoding of a value.
pub open spec fn enc(v: Val) -> Seq<u8>
    decreases v,
{
    match v {
        Val::Null => null_lit(),
        Val::Bool(b) => if b {
            true_lit()
        } else {
            false_lit()
        },
        Val::Int(i) => int_text(i),
        Val::UInt(n) => int_text(n),
        Val::Str(s) => s,
        Val::Tag(s) => s,
        Val::Array(items) => seq![ARRAY_START] + enc_items(items) + seq![ARRAY_END],
        Val::Table(entries) => seq![TABLE_START] + enc_entries(entries) + seq![TABLE_END],
        Val::Variant(name, payload) => seq![TABLE_START, VAR] + name + seq![VAL] + enc(*payload)
            + seq![TABLE_END],
    }
}

/// Array elements, each after a `VAL`.
pub open spec fn enc_items(items: Seq<Val>) -> Seq<u8>
    decreases items,
{
    if items.len() == 0 {
        Seq::empty()
    } else {
        seq![VAL] + enc(items[0]) + enc_items(items.subrange(1, items.len() as int))
    }
}

/// One table entry: `VAR`, the upper-case key, `VAL`, the value.
pub open spec fn enc_entry(e: (Seq<u8>, Val)) -> Seq<u8> {
    seq![VAR] + upper(e.0) + seq![VAL] + enc(e.1)
}

/// Table entries in order.
pub open spec fn enc_entries(entries: Seq<(Seq<u8>, Val)>) -> Seq<u8>
    decreases entries,
{
    if entries.len() == 0 {
        Seq::empty()
    } else {
        seq![VAR] + upper(entries[0].0) + seq![VAL] + enc(entries[0].1) + enc_entries(
            entries.subrange(1, entries.len() as int),
        )
    }
}

pub proof fn lemma_enc_items_append(a: Seq<Val>, b: Seq<Val>)
    ensures
        enc_items(a + b) == enc_items(a) + enc_items(b),
    decreases a.len(),
{
    if a.len() == 0 {
        assert(a + b =~= b);
    } else {
        assert((a + b).subrange(1, (a + b).len() as int) =~= a.subrange(1, a.len() as int) + b);
        lemma_enc_items_append(a.subrange(1, a.len() as int), b);
    }
}

pub proof fn lemma_enc_entries_append(a: Seq<(Seq<u8>, Val)>, b: Seq<(Seq<u8>, Val)>)
    ensures
        enc_entries(a + b) == enc_entries(a) + enc_entries(b),
    decreases a.len(),
{
    if a.len() == 0 {
        assert(a + b =~= b);
    } else {
        assert((a + b).subrange(1, (a + b).len() as int) =~= a.subrange(1, a.len() as int) + b);
        lemma_enc_entries_append(a.subrange(1, a.len() as int), b);
    }
}

proof fn lemma_enc_items_step(items: Seq<Val>, i: int)
    requires
        0 <= i < items.len(),
    ensures
        enc_items(items.take(i + 1)) == enc_items(items.take(i)) + seq![VAL] + enc(items[i]),
        enc_items(items) == enc_items(items.take(i + 1)) + enc_items(items.skip(i + 1)),
{
    let one = seq![items[i]];
    assert(items.take(i + 1) =~= items.take(i) + one);
    lemma_enc_items_append(items.take(i), one);
    assert(one.subrange(1, 1) =~= Seq::<Val>::empty());
    assert(enc_items(one.subrange(1, 1)) == Seq::<u8>::empty());
    assert(enc_items(one) =~= seq![VAL] + enc(items[i]));
    assert(items =~= items.take(i + 1) + items.skip(i + 1));
    lemma_enc_items_append(items.take(i + 1), items.skip(i + 1));
}

proof fn lemma_enc_entries_step(entries: Seq<(Seq<u8>, Val)>, i: int)
    requires
        0 <= i < entries.len(),
    ensures
        enc_entries(entries.take(i + 1)) == enc_entries(entries.take(i)) + seq![VAR] + upper(
            entries[i].0,
        ) + seq![VAL] + enc(entries[i].1),
        enc_entries(entries) == enc_entries(entries.take(i + 1)) + enc_entries(
            entries.skip(i + 1),
        ),
{
    let one = seq![entries[i]];
    assert(entries.take(i + 1) =~= entries.take(i) + one);
    lemma_enc_entries_append(entries.take(i), one);
    assert(one.subrange(1, 1) =~= Seq::<(Seq<u8>, Val)>::empty());
    assert(enc_entries(one.subrange(1, 1)) == Seq::<u8>::empty());
    assert(enc_entries(one) =~= seq![VAR] + upper(entries[i].0) + seq![VAL] + enc(entries[i].1));
    assert(entries =~= entries.take(i + 1) + entries.skip(i + 1));
    lemma_enc_entries_append(entries.take(i + 1), entries.skip(i + 1));
}

/// Appends the decimal digits of `n`.
fn push_digits(out: &mut Vec<u8>, n: u64)
    ensures
        final(out)@ == old(out)@ + digits(n as nat),
    decreases n,
{
    if n < 10 {
        out.push((48 + n) as u8);
        assert(final(out)@ =~= old(out)@ + digits(n as nat));
    } else {
        push_digits(out, n / 10);
        out.push((48 + n % 10) as u8);
        assert(final(out)@ =~= old(out)@ + digits(n as nat));
    }
}

/// The decimal text of a signed integer.
fn signed_text(i: i64) -> (r: Vec<u8>)
    ensures
        r@ == int_text(i as int),
{
    let mut t: Vec<u8> = Vec::new();
    if i < 0 {
        t.push(45u8);
        let m: u64 = if i == i64::MIN {
            0x8000_0000_0000_0000u64
        } else {
            (-i) as u64
        };
        push_digits(&mut t, m);
        assert(t@ =~= int_text(i as int));
    } else {
        push_digits(&mut t, i as u64);
        assert(t@ =~= int_text(i as int));
    }
    t
}

/// The decimal text of an unsigned integer.
fn unsigned_text(n: u64) -> (r: Vec<u8>)
    ensures
        r@ == int_text(n as int),
{
    let mut t: Vec<u8> = Vec::new();
    push_digits(&mut t, n);
    assert(t@ =~= int_text(n as int));
    t
}

/// The key bytes in ASCII upper case.
fn upper_bytes(s: &Vec<u8>) -> (r: Vec<u8>)
    ensures
        r@ == upper(s@),
{
    let mut r: Vec<u8> = Vec::new();
    let mut i: usize = 0;
    while i < s.len()
        invariant
            i <= s@.len(),
            r@ =~= upper(s@).take(i as int),
        decreases s.len() - i,
    {
        let b = s[i];
        let u: u8 = if 97 <= b && b <= 122 {
            b - 32
        } else {
            b
        };
        assert(u == upper_byte(b));
        r.push(u);
        i = i + 1;
        assert(r@ =~= upper(s@).take(i as int));
    }
    assert(upper(s@).take(i as int) =~= upper(s@));
    r
}

/// An MSDP serializer: appends the encoding of values to its buffer.
pub struct Serializer {
    output: BytesMut,
}

impl Serializer {
    /// The bytes written so far.
    pub closed spec fn written(&self) -> Seq<u8> {
        bytes_of(self.output)
    }

    /// A serializer with an empty buffer.
    pub fn new() -> (r: Serializer)
        ensures
            r.written() == Seq::<u8>::empty(),
    {
        Serializer { output: buf_new() }
    }

    fn put(&mut self, s: &[u8])
        requires
            old(self).written().len() + s@.len() <= isize::MAX,
        ensures
            final(self).written() == old(self).written() + s@,
    {
        buf_extend(&mut self.output, s);
    }

    /// Appends the encoding of `v`.
    pub fn serialize(&mut self, v: &Value)
        requires
            old(self).written().len() + enc(v@).len() <= isize::MAX,
        ensures
            final(self).written() == old(self).written() + enc(v@),
        decreases v,
    {
        let ghost w0 = self.written();
        match v {
            Value::Null => {
                let lit = vec![78u8, 85, 76, 76];
                self.put(lit.as_slice());
            },
            Value::Bool(b) => {
                if *b {
                    let lit = vec![84u8, 82, 85, 69];
                    self.put(lit.as_slice());
                } else {
                    let lit = vec![70u8, 65, 76, 83, 69];
                    self.put(lit.as_slice());
                }
            },
            Value::Int(i) => {
                let t = signed_text(*i);
                self.put(t.as_slice());
            },
            Value::UInt(n) => {
                let t = unsigned_text(*n);
                self.put(t.as_slice());
            },
            Value::Str(s) => {
                self.put(s.as_slice());
            },
            Value::Tag(s) => {
                self.put(s.as_slice());
            },
            Value::Array(items) => {
                let ghost ms: Seq<Val> = match v@ {
                    Val::Array(m) => m,
                    _ => Seq::empty(),
                };
                assert forall|k: int| 0 <= k < items@.len() implies #[trigger] ms[k] == items@[k]@ by {}

                let open = vec![ARRAY_START];
                self.put(open.as_slice());
                let mut i: usize = 0;
                while i < items.len()
                    invariant
                        i <= items@.len(),
                        *v == Value::Array(*items),
                        ms.len() == items@.len(),
                        forall|k: int| 0 <= k < items@.len() ==> #[trigger] ms[k] == items@[k]@,
                        enc(v@) == seq![ARRAY_START] + enc_items(ms) + seq![ARRAY_END],
                        w0.len() + enc(v@).len() <= isize::MAX,
                        self.written() == w0 + seq![ARRAY_START] + enc_items(ms.take(i as int)),
                    decreases items.len() - i,
                {
                    proof {
                        lemma_enc_items_step(ms, i as int);
                    }
                    let sep = vec![VAL];
                    self.put(sep.as_slice());
                    proof {
                        assert(decreases_to!(*items => items[i as int])) by {
                            broadcast use vstd::std_specs::vec::axiom_vec_index_decreases;
                        }
                        assert(decreases_to!(*v => (*v)->Array_0));
                    }
                    self.serialize(&items[i]);
                    i = i + 1;
                    assert(self.written() =~= w0 + seq![ARRAY_START] + enc_items(ms.take(i as int)));
                }
                assert(ms.take(i as int) =~= ms);
                let close = vec![ARRAY_END];
                self.put(close.as_slice());
            },
            Value::Table(entries) => {
                let ghost ms: Seq<(Seq<u8>, Val)> = match v@ {
                    Val::Table(m) => m,
                    _ => Seq::empty(),
                };
                assert forall|k: int| 0 <= k < entries@.len() implies #[trigger] ms[k] == (
                    entries@[k].0@,
                    entries@[k].1@,
                ) by {}

                let open = vec![TABLE_START];
                self.put(open.as_slice());
                let mut i: usize = 0;
                while i < entries.len()
                    invariant
                        i <= entries@.len(),
                        *v == Value::Table(*entries),
                        ms.len() == entries@.len(),
                        forall|k: int|
                            0 <= k < entries@.len() ==> #[trigger] ms[k] == (
                                entries@[k].0@,
                                entries@[k].1@,
                            ),
                        enc(v@) == seq![TABLE_START] + enc_entries(ms) + seq![TABLE_END],
                        w0.len() + enc(v@).len() <= isize::MAX,
                        self.written() == w0 + seq![TABLE_START] + enc_entries(ms.take(i as int)),
                    decreases entries.len() - i,
                {
                    proof {
                        lemma_enc_entries_step(ms, i as int);
                    }
                    let sep = vec![VAR];
                    self.put(sep.as_slice());
                    let key = upper_bytes(&entries[i].0);
                    self.put(key.as_slice());
                    let sep2 = vec![VAL];
                    self.put(sep2.as_slice());
                    proof {
                        assert(decreases_to!(*entries => entries[i as int])) by {
                            broadcast use vstd::std_specs::vec::axiom_vec_index_decreases;
                        }
                        assert(decreases_to!(*v => (*v)->Table_0));
                        assert(decreases_to!(entries[i as int] => entries[i as int].1));
                    }
                    self.serialize(&entries[i].1);
                    i = i + 1;
                    assert(self.written() =~= w0 + seq![TABLE_START] + enc_entries(
                        ms.take(i as int),
                    ));
                }
                assert(ms.take(i as int) =~= ms);
                let close = vec![TABLE_END];
                self.put(close.as_slice());
            },
            Value::Variant(name, payload) => {
                let open = vec![TABLE_START, VAR];
                self.put(open.as_slice());
                self.put(name.as_slice());
                let sep = vec![VAL];
                self.put(sep.as_slice());
                self.serialize(payload);
                let close = vec![TABLE_END];
                self.put(close.as_slice());
            },
        }
        assert(self.written() =~= w0 + enc(v@));
    }

    /// The bytes written so far, copied out.
    pub fn to_bytes(&self) -> (r: Vec<u8>)
        ensures
            r@ == self.written(),
    {
        buf_to_vec(&self.output)
    }
}

/// The wire encoding of `value`; encoding cannot fail.
pub fn to_vec(value: &Value) -> (r: Result<Vec<u8>, Error>)
    requires
        enc(value@).len() <= isize::MAX,
    ensures
        r matches Ok(b) && b@ == enc(value@),
{
    let mut serializer = Serializer::new();
    serializer.serialize(value);
    assert(serializer.written() =~= enc(value@));
    Ok(serializer.to_bytes())
}

} // verus!
