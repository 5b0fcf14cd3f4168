use vstd::prelude::*;
use serde_json::Error as JsonError;

verus! {

/// `serde_json::Error`, carried opaque in `Error::JSON`.
#[verifier::external_type_specification]
#[verifier::external_body]
pub struct ExJsonError(JsonError);

/// Marks types that travel as the body of a GMCP message.
pub trait Data {}

/// A GMCP message: a dotted module name and the data sent under it.
pub struct DataStruct<T> {
    /// The data.
    pub inner: T,
    /// The dotted module name (`Char.Vitals`, ...).
    pub name: String,
}

/// Failures of the GMCP envelope.
#[derive(Debug)]
pub enum Error {
    Message(String),
    /// The JSON body did not encode or decode.
    JSON(JsonError),
    ExpectedSB,
    ExpectedSE,
    /// The text holds no JSON body.
    ExpectedGMCP,
}

impl<T> DataStruct<T> {
    /// A message with `data` under the module `name`.
    pub fn new(data: T, name: String) -> (r: Self)
        ensures
            r.inner == data,
            r.name == name,
    {
        DataStruct { inner: data, name: name }
    }
}

/// `IAC SB GMCP`, the bytes before a GMCP payload.
pub open spec fn frame_start() -> Seq<u8> {
    seq![0xffu8, 250u8, 201u8]
}

/// `IAC SE`, the bytes after a GMCP payload.
pub open spec fn frame_end() -> Seq<u8> {
    seq![0xffu8, 240u8]
}

pub open spec fn is_space(b: u8) -> bool {
    b == 32 || b == 9 || b == 10 || b == 12 || b == 13
}

/// The position of the first `{` at or after `p`, or the length.
pub open spec fn brace_from(s: Seq<u8>, p: int) -> int
    decreases s.len() - p,
{
    if 0 <= p < s.len() && s[p] != 123 {
        brace_from(s, p + 1)
    } else {
        p
    }
}

/// The first position at or after `p` that is not white space, up to `hi`.
pub open spec fn skip_space(s: Seq<u8>, p: int, hi: int) -> int
    decreases hi - p,
{
    if 0 <= p < hi && hi <= s.len() && is_space(s[p]) {
        skip_space(s, p + 1, hi)
    } else {
        p
    }
}

/// The end of `s[lo..hi]` without its trailing white space.
pub open spec fn trim_end(s: Seq<u8>, lo: int, hi: int) -> int
    decreases hi - lo,
{
    if 0 <= lo < hi && hi <= s.len() && is_space(s[hi - 1]) {
        trim_end(s, lo, hi - 1)
    } else {
        hi
    }
}

/// Wraps a GMCP payload in its telnet sub-negotiation bytes.
pub fn frame_gmcp(payload: &[u8]) -> (r: Vec<u8>)
    ensures
        r@ == frame_start() + payload@ + frame_end(),
{
    let mut r: Vec<u8> = vec![0xffu8, 250, 201];
    let mut i: usize = 0;
    while i < payload.len()
        invariant
            i <= payload@.len(),
            r@ == frame_start() + payload@.take(i as int),
        decreases payload.len() - i,
    {
        r.push(payload[i]);
        i = i + 1;
        assert(r@ =~= frame_start() + payload@.take(i as int));
    }
    assert(payload@.take(i as int) =~= payload@);
    r.push(0xff);
    r.push(240);
    assert(r@ =~= frame_start() + payload@ + frame_end());
    r
}

/// Splits `<module name> <json body>` at the first `{`: the name without
/// surrounding white space, and the body from the `{` on.
pub fn split_envelope(data: &[u8]) -> (r: Result<(Vec<u8>, Vec<u8>), Error>)
    ensures
        brace_from(data@, 0) >= data@.len() ==> r matches Err(Error::ExpectedGMCP),
        brace_from(data@, 0) < data@.len() ==> (r matches Ok((name, body)) && ({
            let b = brace_from(data@, 0);
            let lo = skip_space(data@, 0, b);
            &&& name@ == data@.subrange(lo, trim_end(data@, lo, b))
            &&& body@ == data@.subrange(b, data@.len() as int)
        })),
{
    let mut b: usize = 0;
    while b < data.len() && data[b] != 123
        invariant
            b <= data@.len(),
            brace_from(data@, 0) == brace_from(data@, b as int),
        decreases data.len() - b,
    {
        b = b + 1;
    }
    if b >= data.len() {
        return Err(Error::ExpectedGMCP);
    }
    let mut lo: usize = 0;
    while lo < b && (data[lo] == 32 || data[lo] == 9 || data[lo] == 10 || data[lo] == 12
        || data[lo] == 13)
        invariant
            lo <= b < data@.len(),
            skip_space(data@, 0, b as int) == skip_space(data@, lo as int, b as int),
        decreases b - lo,
    {
        lo = lo + 1;
    }
    let mut hi: usize = b;
    while lo < hi && (data[hi - 1] == 32 || data[hi - 1] == 9 || data[hi - 1] == 10 || data[hi
        - 1] == 12 || data[hi - 1] == 13)
        invariant
            lo <= hi <= b < data@.len(),
            trim_end(data@, lo as int, b as int) == trim_end(data@, lo as int, hi as int),
        decreases hi - lo,
    {
        hi = hi - 1;
    }
    let name = crate::wire::copy_bytes(data, lo, hi);
    let body = crate::wire::copy_bytes(data, b, data.len());
    Ok((name, body))
}

} // verus!
