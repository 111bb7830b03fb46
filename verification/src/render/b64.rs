//! Standard base64 (RFC 4648, padded), shared by the image-tier encoders.

use vstd::prelude::*;

verus! {

/// The base64 alphabet: `A`–`Z`, `a`–`z`, `0`–`9`, `+`, `/`.
pub open spec fn b64_digit(v: int) -> u8 {
    if v < 26 {
        (65 + v) as u8
    } else if v < 52 {
        (97 + v - 26) as u8
    } else if v < 62 {
        (48 + v - 52) as u8
    } else if v == 62 {
        0x2bu8
    } else {
        0x2fu8
    }
}

/// The four output bytes of one group of one to three input bytes; missing
/// input bytes count as zero and their output positions become `=`.
pub open spec fn b64_group(c: Seq<u8>) -> Seq<u8> {
    let b0 = c[0] as int;
    let b1 = if c.len() > 1 { c[1] as int } else { 0 };
    let b2 = if c.len() > 2 { c[2] as int } else { 0 };
    seq![
        b64_digit(b0 / 4),
        b64_digit((b0 % 4) * 16 + b1 / 16),
        if c.len() > 1 { b64_digit((b1 % 16) * 4 + b2 / 64) } else { 0x3du8 },
        if c.len() > 2 { b64_digit(b2 % 64) } else { 0x3du8 },
    ]
}

/// Base64 of `d`: the groups of three input bytes, the last possibly shorter.
pub open spec fn b64(d: Seq<u8>) -> Seq<u8>
    decreases d.len(),
{
    if d.len() == 0 {
        Seq::empty()
    } else if d.len() <= 3 {
        b64_group(d)
    } else {
        b64_group(d.take(3)) + b64(d.skip(3))
    }
}

/// Base64 turns every started group of three bytes into four characters.
pub proof fn lemma_b64_len(d: Seq<u8>)
    ensures
        b64(d).len() == (d.len() + 2) / 3 * 4,
    decreases d.len(),
{
    if d.len() > 3 {
        lemma_b64_len(d.skip(3));
    }
}

fn digit(v: u8) -> (r: u8)
    requires
        v < 64,
    ensures
        r == b64_digit(v as int),
{
    if v < 26 {
        65 + v
    } else if v < 52 {
        97 + (v - 26)
    } else if v < 62 {
        48 + (v - 52)
    } else if v == 62 {
        0x2b
    } else {
        0x2f
    }
}

/// Encode `data` to standard base64 with `=` padding.
pub fn encode(data: &[u8]) -> (out: Vec<u8>)
    ensures
        out@ == b64(data@),
{
    let n = data.len();
    let mut out: Vec<u8> = Vec::new();
    let mut i: usize = 0;
    assert(data@.skip(0) =~= data@);
    assert(out@ + b64(data@) =~= b64(data@));
    while i < n
        invariant
            n == data@.len(),
            i <= n,
            out@ + b64(data@.skip(i as int)) == b64(data@),
        decreases n - i,
    {
        let rest = n - i;
        let b0 = data[i];
        let b1: u8 = if rest > 1 { data[i + 1] } else { 0 };
        let b2: u8 = if rest > 2 { data[i + 2] } else { 0 };
        let ghost tail = data@.skip(i as int);
        let ghost g = if rest <= 3 { tail } else { tail.take(3) };
        proof {
            assert(g[0] == b0);
            if rest > 1 {
                assert(g[1] == b1);
            }
            if rest > 2 {
                assert(g[2] == b2);
            }
        }
        out.push(digit(b0 / 4));
        out.push(digit((b0 % 4) * 16 + b1 / 16));
        out.push(if rest > 1 { digit((b1 % 16) * 4 + b2 / 64) } else { 0x3d });
        out.push(if rest > 2 { digit(b2 % 64) } else { 0x3d });
        proof {
            assert(out@.subrange(out@.len() - 4, out@.len() as int) =~= b64_group(g));
            if rest <= 3 {
                assert(data@.skip(n as int) =~= Seq::<u8>::empty());
            } else {
                assert(tail.skip(3) =~= data@.skip(i + 3));
            }
        }
        let step: usize = if rest < 3 { rest } else { 3 };
        proof {
            let old_out = out@.subrange(0, out@.len() - 4);
            assert(out@ =~= old_out + b64_group(g));
        }
        i = i + step;
    }
    assert(data@.skip(n as int) =~= Seq::<u8>::empty());
    assert(out@ + Seq::<u8>::empty() =~= out@);
    out
}

} // verus!
