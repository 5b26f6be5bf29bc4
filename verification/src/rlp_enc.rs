//! Executable encoders for the wire format, each proved to emit exactly
//! the bytes its spec function in `rlp_spec` describes.
use vstd::prelude::*;
use crate::rlp_spec::be_bytes;
use crate::rlp_spec::lemma_be_len_le;
use crate::rlp_spec::lemma_pow256_values;
use crate::rlp_spec::pow256;
use crate::rlp_spec::rlp_list;
use crate::rlp_spec::rlp_str;
use crate::rlp_spec::rlp_uint;

verus! {

/// Append every byte of `b` to `out`.
pub fn append_bytes(out: &mut Vec<u8>, b: &Vec<u8>)
    ensures
        final(out)@ == old(out)@ + b@,
{
    let mut i: usize = 0;
    while i < b.len()
        invariant
            i <= b@.len(),
            out@ == old(out)@ + b@.take(i as int),
        decreases b@.len() - i,
    {
        out.push(b[i]);
        proof {
            assert(b@.take(i as int).push(b@[i as int]) =~= b@.take(i + 1));
            assert((old(out)@ + b@.take(i as int)).push(b@[i as int]) =~= old(out)@ + b@.take(
                i + 1,
            ));
        }
        i = i + 1;
    }
    proof {
        assert(b@.take(b@.len() as int) =~= b@);
    }
}

/// Append the minimal big-endian bytes of `n` to `out`.
pub fn append_be(out: &mut Vec<u8>, n: u64)
    ensures
        final(out)@ == old(out)@ + be_bytes(n as nat),
    decreases n,
{
    if n > 0 {
        append_be(out, n / 256);
        out.push((n % 256) as u8);
        proof {
            assert((old(out)@ + be_bytes((n / 256) as nat)).push((n % 256) as u8) =~= old(out)@
                + be_bytes(n as nat));
        }
    } else {
        proof {
            assert(out@ =~= old(out)@ + be_bytes(0nat));
        }
    }
}

/// Every in-memory length is below `pow256(8)`, so its big-endian form
/// takes at most eight bytes.
pub proof fn lemma_usize_len_bound(n: nat)
    requires
        n <= usize::MAX,
    ensures
        n < pow256(8),
        be_bytes(n).len() <= 8,
{
    lemma_pow256_values();
    lemma_be_len_le(n, 8);
}

/// Append the canonical string encoding of `b` to `out`.
pub fn append_str(out: &mut Vec<u8>, b: &Vec<u8>)
    ensures
        final(out)@ == old(out)@ + rlp_str(b@),
{
    if b.len() == 1 && b[0] < 0x80 {
        out.push(b[0]);
        proof {
            assert(old(out)@.push(b@[0]) =~= old(out)@ + rlp_str(b@));
        }
    } else if b.len() <= 55 {
        out.push((0x80 + b.len()) as u8);
        let ghost mid = out@;
        append_bytes(out, b);
        proof {
            assert(mid == old(out)@.push((0x80 + b@.len()) as u8));
            assert(old(out)@.push((0x80 + b@.len()) as u8) + b@ =~= old(out)@ + rlp_str(b@));
        }
    } else {
        let mut lenb: Vec<u8> = Vec::new();
        append_be(&mut lenb, b.len() as u64);
        proof {
            lemma_usize_len_bound(b@.len());
        }
        out.push((0xb7 + lenb.len()) as u8);
        append_bytes(out, &lenb);
        append_bytes(out, b);
        proof {
            assert(old(out)@.push((0xb7 + be_bytes(b@.len()).len()) as u8) + be_bytes(b@.len())
                + b@ =~= old(out)@ + rlp_str(b@));
        }
    }
}

/// Append the canonical integer encoding of `n` to `out`.
pub fn append_uint(out: &mut Vec<u8>, n: u64)
    ensures
        final(out)@ == old(out)@ + rlp_uint(n as nat),
{
    let mut b: Vec<u8> = Vec::new();
    append_be(&mut b, n);
    append_str(out, &b);
}

/// Put the canonical list header in front of an already encoded payload.
pub fn wrap_list(payload: Vec<u8>) -> (r: Vec<u8>)
    ensures
        r@ == rlp_list(payload@),
{
    let mut out: Vec<u8> = Vec::new();
    if payload.len() <= 55 {
        out.push((0xc0 + payload.len()) as u8);
        append_bytes(&mut out, &payload);
        proof {
            assert(out@ =~= rlp_list(payload@));
        }
    } else {
        let mut lenb: Vec<u8> = Vec::new();
        append_be(&mut lenb, payload.len() as u64);
        proof {
            lemma_usize_len_bound(payload@.len());
        }
        out.push((0xf7 + lenb.len()) as u8);
        append_bytes(&mut out, &lenb);
        append_bytes(&mut out, &payload);
        proof {
            assert(out@ =~= rlp_list(payload@));
        }
    }
    out
}

} // verus!
