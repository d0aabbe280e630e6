//! The request for one record: the endpoint with the record's ID as its key
//! and fixed query parameters for the dynasty, the category and JSON output.
use vstd::prelude::*;
use vstd::string::StringSliceAdditionalSpecFns;

verus! {

/// The endpoint and the query parameters before the key.
pub const URL_HEAD: &'static str = "https://api.sou-yun.cn/open/poem?dynasty=Tang&key=";

/// The query parameters after the key.
pub const URL_TAIL: &'static str = "&type=poem&jsontype=true";

/// The media types the request accepts.
pub const ACCEPT: &'static str = "application/json, text/javascript, */*; q=0.01";

/// The ASCII decimal digits of `n`, without leading zeros.
pub open spec fn decimal(n: nat) -> Seq<u8>
    decreases n,
{
    if n < 10 {
        seq![(48 + n) as u8]
    } else {
        decimal(n / 10).push((48 + n % 10) as u8)
    }
}

/// The bytes of the request URL for `id`.
pub open spec fn url_spec(id: nat) -> Seq<u8> {
    URL_HEAD.spec_bytes() + decimal(id) + URL_TAIL.spec_bytes()
}

fn push_bytes(out: &mut Vec<u8>, bytes: &[u8])
    ensures
        final(out)@ == old(out)@ + bytes@,
{
    let mut i: usize = 0;
    while i < bytes.len()
        invariant
            i <= bytes@.len(),
            out@ == old(out)@ + bytes@.subrange(0, i as int),
        decreases bytes@.len() - i,
    {
        out.push(bytes[i]);
        i = i + 1;
        proof {
            assert(out@ =~= old(out)@ + bytes@.subrange(0, i as int));
        }
    }
    assert(bytes@.subrange(0, bytes@.len() as int) =~= bytes@);
}

fn push_decimal(out: &mut Vec<u8>, n: u32)
    ensures
        final(out)@ == old(out)@ + decimal(n as nat),
    decreases n,
{
    if n >= 10 {
        push_decimal(out, n / 10);
    }
    out.push(48 + (n % 10) as u8);
    proof {
        if n < 10 {
            assert(out@ =~= old(out)@ + decimal(n as nat));
        } else {
            let d = decimal((n / 10) as nat);
            assert(decimal(n as nat) == d.push((48 + n % 10) as u8));
            assert(out@ =~= old(out)@ + decimal(n as nat));
        }
    }
}

/// The request URL for the record keyed by `id`, as bytes.
pub fn request_url(id: u32) -> (r: Vec<u8>)
    ensures
        r@ == url_spec(id as nat),
{
    let mut out: Vec<u8> = Vec::new();
    push_bytes(&mut out, URL_HEAD.as_bytes());
    push_decimal(&mut out, id);
    push_bytes(&mut out, URL_TAIL.as_bytes());
    assert(out@ =~= url_spec(id as nat));
    out
}

} // verus!
