//! Mathematical model of the wire format: a self-describing,
//! length-prefixed list-of-items byte encoding. Every encoder and decoder
//! contract in this crate is stated over these spec functions.
use vstd::prelude::*;
use vstd::arithmetic::div_mod::lemma_fundamental_div_mod;
use vstd::arithmetic::div_mod::lemma_fundamental_div_mod_converse;
use vstd::arithmetic::div_mod::lemma_multiply_divide_lt;

verus! {

/// 256 to the power `k`: the number of values a `k`-byte big-endian
/// number can take.
pub open spec fn pow256(k: nat) -> nat
    decreases k,
{
    if k == 0 {
        1
    } else {
        256 * pow256((k - 1) as nat)
    }
}

/// Minimal big-endian byte representation of a number: no leading zero
/// byte; zero is the empty sequence.
pub open spec fn be_bytes(n: nat) -> Seq<u8>
    decreases n,
{
    if n == 0 {
        Seq::empty()
    } else {
        be_bytes(n / 256).push((n % 256) as u8)
    }
}

/// The number a big-endian byte sequence denotes.
pub open spec fn be_val(s: Seq<u8>) -> nat
    decreases s.len(),
{
    if s.len() == 0 {
        0
    } else {
        (be_val(s.drop_last()) * 256 + s.last()) as nat
    }
}

pub proof fn lemma_pow256_values()
    ensures
        pow256(8) == 0x1_0000_0000_0000_0000,
        pow256(2) == 0x1_0000,
{
    reveal_with_fuel(pow256, 10);
}

/// Reading back the minimal big-endian bytes of `n` yields `n`.
pub proof fn lemma_be_val_of_be(n: nat)
    ensures
        be_val(be_bytes(n)) == n,
    decreases n,
{
    if n > 0 {
        lemma_be_val_of_be(n / 256);
        let s = be_bytes(n);
        assert(s == be_bytes(n / 256).push((n % 256) as u8));
        assert(s.drop_last() == be_bytes(n / 256));
        lemma_fundamental_div_mod(n as int, 256);
    }
}

/// A positive number's big-endian bytes start with a nonzero byte.
pub proof fn lemma_be_no_leading_zero(n: nat)
    requires
        n > 0,
    ensures
        be_bytes(n).len() >= 1,
        be_bytes(n)[0] != 0,
    decreases n,
{
    if n / 256 > 0 {
        lemma_be_no_leading_zero(n / 256);
        assert(be_bytes(n)[0] == be_bytes(n / 256)[0]);
    } else {
        lemma_fundamental_div_mod(n as int, 256);
        assert(be_bytes(n) == be_bytes(0nat).push((n % 256) as u8));
        assert(be_bytes(n)[0] == (n % 256) as u8);
    }
}

/// A number below `pow256(k)` needs at most `k` big-endian bytes.
pub proof fn lemma_be_len_le(n: nat, k: nat)
    requires
        n < pow256(k),
    ensures
        be_bytes(n).len() <= k,
    decreases k,
{
    if n > 0 {
        if k == 0 {
        } else {
            lemma_multiply_divide_lt(n as int, 256, pow256((k - 1) as nat) as int);
            lemma_be_len_le(n / 256, (k - 1) as nat);
        }
    }
}

/// A big-endian sequence without a leading zero is the minimal
/// representation of its value.
pub proof fn lemma_be_of_val(s: Seq<u8>)
    requires
        s.len() == 0 || s[0] != 0,
    ensures
        be_bytes(be_val(s)) == s,
    decreases s.len(),
{
    if s.len() > 0 {
        let v = be_val(s.drop_last());
        let l = s.last();
        if s.len() == 1 {
            assert(s.drop_last() == Seq::<u8>::empty());
        } else {
            assert(s.drop_last()[0] == s[0]);
        }
        lemma_be_of_val(s.drop_last());
        let n = be_val(s);
        assert(n == v * 256 + l);
        if n == 0 {
            assert(v * 256 >= 0) by (nonlinear_arith)
                requires v >= 0;
            assert(v * 256 == 0 && l == 0);
            assert(v == 0) by (nonlinear_arith)
                requires v * 256 == 0;
            assert(s.drop_last() == be_bytes(0nat));
            assert(s.len() == 1 && s[0] == 0);
        } else {
            lemma_fundamental_div_mod_converse(n as int, 256, v as int, l as int);
            assert(be_bytes(n) == be_bytes(v).push(l));
            assert(be_bytes(v).push(l) == s.drop_last().push(l));
            assert(s.drop_last().push(l) == s);
        }
    } else {
        assert(s == Seq::<u8>::empty());
    }
}

/// Minimal big-endian encoding is injective.
pub proof fn lemma_be_injective(a: nat, b: nat)
    requires
        be_bytes(a) == be_bytes(b),
    ensures
        a == b,
{
    lemma_be_val_of_be(a);
    lemma_be_val_of_be(b);
}

/// Canonical encoding of a byte string: a single byte below 0x80 stands
/// for itself; otherwise the bytes follow a length prefix, short form for
/// up to 55 bytes, long form with a minimal big-endian length after it.
pub open spec fn rlp_str(b: Seq<u8>) -> Seq<u8> {
    if b.len() == 1 && b[0] < 0x80 {
        b
    } else if b.len() <= 55 {
        seq![(0x80 + b.len()) as u8] + b
    } else {
        seq![(0xb7 + be_bytes(b.len()).len()) as u8] + be_bytes(b.len()) + b
    }
}

/// Canonical encoding of an unsigned integer: its minimal big-endian
/// bytes encoded as a string.
pub open spec fn rlp_uint(n: nat) -> Seq<u8> {
    rlp_str(be_bytes(n))
}

/// Canonical encoding of a list, given the concatenation of its already
/// encoded items.
pub open spec fn rlp_list(p: Seq<u8>) -> Seq<u8> {
    if p.len() <= 55 {
        seq![(0xc0 + p.len()) as u8] + p
    } else {
        seq![(0xf7 + be_bytes(p.len()).len()) as u8] + be_bytes(p.len()) + p
    }
}

/// The length of the first item of `s`, string or list, read from its
/// header, or `None` where `s` does not start with a whole item.
pub open spec fn item_len(s: Seq<u8>) -> Option<int> {
    if s.len() == 0 {
        None
    } else {
        let b0 = s[0];
        if b0 < 0x80 {
            Some(1int)
        } else if b0 <= 0xb7 {
            let n = b0 - 0x80;
            if s.len() >= 1 + n {
                Some(1 + n)
            } else {
                None
            }
        } else if b0 <= 0xbf {
            let ll = b0 - 0xb7;
            if s.len() >= 1 + ll {
                let n = be_val(s.subrange(1, 1 + ll)) as int;
                if s.len() >= 1 + ll + n {
                    Some(1 + ll + n)
                } else {
                    None
                }
            } else {
                None
            }
        } else if b0 <= 0xf7 {
            let n = b0 - 0xc0;
            if s.len() >= 1 + n {
                Some(1 + n)
            } else {
                None
            }
        } else {
            let ll = b0 - 0xf7;
            if s.len() >= 1 + ll {
                let n = be_val(s.subrange(1, 1 + ll)) as int;
                if s.len() >= 1 + ll + n {
                    Some(1 + ll + n)
                } else {
                    None
                }
            } else {
                None
            }
        }
    }
}

/// `s` is exactly one item: its header-declared length covers all of `s`.
pub open spec fn is_item(s: Seq<u8>) -> bool {
    item_len(s) == Some(s.len() as int)
}

/// `item_len` only reads the first item: any sequence at least `l` long
/// that agrees with `u` on the first `l` bytes yields the same answer.
pub proof fn lemma_item_len_agree(u: Seq<u8>, v: Seq<u8>, l: int)
    requires
        item_len(u) == Some(l),
        v.len() >= l,
        l <= u.len(),
        u.subrange(0, l) == v.subrange(0, l),
    ensures
        item_len(v) == Some(l),
{
    assert(l >= 1);
    assert(v[0] == u.subrange(0, l)[0]);
    assert(v[0] == u[0]);
    let b0 = u[0];
    if b0 < 0x80 {
    } else if b0 <= 0xb7 {
    } else if b0 <= 0xbf {
        let ll = b0 - 0xb7;
        assert(u.len() >= 1 + ll && l >= 1 + ll);
        assert(v.subrange(1, 1 + ll) =~= u.subrange(1, 1 + ll)) by {
            assert forall|i: int| 0 <= i < ll implies #[trigger] v.subrange(1, 1 + ll)[i]
                == u.subrange(1, 1 + ll)[i] by {
                assert(v[i + 1] == v.subrange(0, l)[i + 1]);
                assert(u[i + 1] == u.subrange(0, l)[i + 1]);
            }
        }
    } else if b0 <= 0xf7 {
    } else {
        let ll = b0 - 0xf7;
        assert(u.len() >= 1 + ll && l >= 1 + ll);
        assert(v.subrange(1, 1 + ll) =~= u.subrange(1, 1 + ll)) by {
            assert forall|i: int| 0 <= i < ll implies #[trigger] v.subrange(1, 1 + ll)[i]
                == u.subrange(1, 1 + ll)[i] by {
                assert(v[i + 1] == v.subrange(0, l)[i + 1]);
                assert(u[i + 1] == u.subrange(0, l)[i + 1]);
            }
        }
    }
}

/// An encoded string is one whole item, no longer than a header plus the
/// bytes, and never starts with a list header byte.
pub proof fn lemma_rlp_str_is_item(b: Seq<u8>)
    requires
        b.len() < pow256(8),
    ensures
        is_item(rlp_str(b)),
        rlp_str(b).len() >= 1,
        rlp_str(b).len() >= b.len(),
        rlp_str(b)[0] < 0xc0,
{
    let s = rlp_str(b);
    if b.len() == 1 && b[0] < 0x80 {
    } else if b.len() <= 55 {
        assert(s[0] == (0x80 + b.len()) as u8);
    } else {
        let lb = be_bytes(b.len());
        lemma_be_len_le(b.len(), 8);
        lemma_be_no_leading_zero(b.len());
        lemma_be_val_of_be(b.len());
        assert(s[0] == (0xb7 + lb.len()) as u8);
        assert(s.subrange(1, 1 + lb.len() as int) =~= lb);
    }
}

/// An encoded list is one whole item and starts with a list header byte.
pub proof fn lemma_rlp_list_is_item(p: Seq<u8>)
    requires
        p.len() < pow256(8),
    ensures
        is_item(rlp_list(p)),
        rlp_list(p).len() >= 1,
        rlp_list(p).len() > p.len(),
        rlp_list(p)[0] >= 0xc0,
{
    let s = rlp_list(p);
    if p.len() <= 55 {
        assert(s[0] == (0xc0 + p.len()) as u8);
    } else {
        let lb = be_bytes(p.len());
        lemma_be_len_le(p.len(), 8);
        lemma_be_no_leading_zero(p.len());
        lemma_be_val_of_be(p.len());
        assert(s[0] == (0xf7 + lb.len()) as u8);
        assert(s.subrange(1, 1 + lb.len() as int) =~= lb);
    }
}

/// An encoded string or list is never shorter than its contents, whatever
/// their size.
pub proof fn lemma_enc_len_ge(b: Seq<u8>)
    ensures
        rlp_str(b).len() >= b.len(),
        rlp_str(b).len() >= 1,
        rlp_list(b).len() > b.len(),
{
}

/// Exact shape of an encoded string: which of the three header forms it
/// takes, its first byte, its total length, and where the content sits.
pub proof fn lemma_rlp_str_cases(s: Seq<u8>, e: Seq<u8>)
    requires
        e == rlp_str(s),
        s.len() < pow256(8),
    ensures
        e.len() >= 1,
        (s.len() == 1 && s[0] < 0x80 && e == s) || (!(s.len() == 1 && s[0] < 0x80) && s.len()
            <= 55 && e.len() == 1 + s.len() && e[0] == 0x80 + s.len() && e.subrange(
            1,
            e.len() as int,
        ) == s) || (s.len() > 55 && 1 <= be_bytes(s.len()).len() <= 8 && e[0] == 0xb7 + be_bytes(
            s.len(),
        ).len() && be_bytes(s.len())[0] != 0 && e.len() == 1 + be_bytes(s.len()).len() + s.len()
            && e.subrange(1, 1 + be_bytes(s.len()).len() as int) == be_bytes(s.len())
            && e.subrange(1 + be_bytes(s.len()).len() as int, e.len() as int) == s),
{
    if s.len() == 1 && s[0] < 0x80 {
    } else if s.len() <= 55 {
        assert(e[0] == (0x80 + s.len()) as u8);
        assert(e.subrange(1, e.len() as int) =~= s);
    } else {
        let lb = be_bytes(s.len());
        lemma_be_len_le(s.len(), 8);
        lemma_be_no_leading_zero(s.len());
        assert(e[0] == (0xb7 + lb.len()) as u8);
        assert(e.subrange(1, 1 + lb.len() as int) =~= lb);
        assert(e.subrange(1 + lb.len() as int, e.len() as int) =~= s);
    }
}

/// String encoding is injective.
pub proof fn lemma_rlp_str_injective(a: Seq<u8>, b: Seq<u8>)
    requires
        a.len() < pow256(8),
        b.len() < pow256(8),
        rlp_str(a) == rlp_str(b),
    ensures
        a == b,
{
    let s = rlp_str(a);
    lemma_rlp_str_is_item(a);
    lemma_rlp_str_is_item(b);
    lemma_be_len_le(a.len(), 8);
    lemma_be_len_le(b.len(), 8);
    if a.len() == 1 && a[0] < 0x80 {
        assert(s[0] == a[0]);
        assert(b.len() == 1 && b[0] < 0x80) by {
            if b.len() <= 55 && !(b.len() == 1 && b[0] < 0x80) {
                assert(s[0] == (0x80 + b.len()) as u8);
            } else if b.len() > 55 {
                assert(s[0] == (0xb7 + be_bytes(b.len()).len()) as u8);
                lemma_be_no_leading_zero(b.len());
            }
        }
        assert(a =~= b);
    } else if a.len() <= 55 {
        assert(s[0] == (0x80 + a.len()) as u8);
        assert(!(b.len() == 1 && b[0] < 0x80));
        assert(b.len() <= 55) by {
            if b.len() > 55 {
                lemma_be_no_leading_zero(b.len());
                assert(s[0] == (0xb7 + be_bytes(b.len()).len()) as u8);
            }
        }
        assert(a.len() == b.len());
        assert(a =~= b) by {
            assert(forall|i: int| 0 <= i < a.len() ==> a[i] == s[i + 1] && b[i] == s[i + 1]);
        }
    } else {
        lemma_be_no_leading_zero(a.len());
        assert(s[0] == (0xb7 + be_bytes(a.len()).len()) as u8);
        assert(!(b.len() == 1 && b[0] < 0x80));
        assert(b.len() > 55) by {
            if b.len() <= 55 {
                assert(s[0] == (0x80 + b.len()) as u8);
            }
        }
        lemma_be_no_leading_zero(b.len());
        let la = be_bytes(a.len());
        let lb = be_bytes(b.len());
        assert(la.len() == lb.len());
        assert(la =~= lb) by {
            assert(forall|i: int| 0 <= i < la.len() ==> la[i] == s[i + 1] && lb[i] == s[i + 1]);
        }
        lemma_be_injective(a.len(), b.len());
        assert(a =~= b) by {
            assert(forall|i: int|
                0 <= i < a.len()
                    ==> a[i] == s[i + 1 + la.len()] && b[i] == s[i + 1 + la.len()]);
        }
    }
}

/// Strict parse of a whole byte sequence as one list: the header must be
/// canonical (short form up to 55 payload bytes, else long form with a
/// minimal length) and must account for every byte. Returns the payload.
pub open spec fn list_payload(s: Seq<u8>) -> Option<Seq<u8>> {
    if s.len() == 0 {
        None
    } else {
        let b0 = s[0];
        if 0xc0 <= b0 <= 0xf7 {
            let n = b0 - 0xc0;
            if s.len() == 1 + n {
                Some(s.subrange(1, s.len() as int))
            } else {
                None
            }
        } else if b0 >= 0xf8 {
            let ll = b0 - 0xf7;
            if s.len() >= 1 + ll {
                let lb = s.subrange(1, 1 + ll);
                let n = be_val(lb) as int;
                if lb[0] != 0 && n > 55 && s.len() == 1 + ll + n {
                    Some(s.subrange(1 + ll, s.len() as int))
                } else {
                    None
                }
            } else {
                None
            }
        } else {
            None
        }
    }
}

/// A canonically encoded list parses back to its payload.
pub proof fn lemma_list_payload_of_rlp_list(p: Seq<u8>)
    requires
        p.len() < pow256(8),
    ensures
        list_payload(rlp_list(p)) == Some(p),
{
    let s = rlp_list(p);
    if p.len() <= 55 {
        assert(s[0] == (0xc0 + p.len()) as u8);
        assert(s.subrange(1, s.len() as int) =~= p);
    } else {
        let lb = be_bytes(p.len());
        lemma_be_len_le(p.len(), 8);
        lemma_be_no_leading_zero(p.len());
        lemma_be_val_of_be(p.len());
        assert(s[0] == (0xf7 + lb.len()) as u8);
        assert(s.subrange(1, 1 + lb.len() as int) =~= lb);
        assert(s.subrange(1 + lb.len() as int, s.len() as int) =~= p);
    }
}

/// The strict list parse only accepts the canonical encoding: whatever it
/// accepts re-encodes to the same bytes.
pub proof fn lemma_list_payload_canonical(s: Seq<u8>)
    requires
        list_payload(s) is Some,
    ensures
        s == rlp_list(list_payload(s)->Some_0),
        list_payload(s)->Some_0.len() < s.len(),
{
    let p = list_payload(s)->Some_0;
    let b0 = s[0];
    if 0xc0 <= b0 <= 0xf7 {
        assert(p.len() == b0 - 0xc0 <= 55);
        assert(rlp_list(p) =~= s) by {
            assert(rlp_list(p)[0] == (0xc0 + p.len()) as u8);
            assert(forall|i: int| 0 <= i < p.len() ==> #[trigger] p[i] == s[i + 1]);
        }
    } else {
        let ll = b0 - 0xf7;
        let lb = s.subrange(1, 1 + ll);
        lemma_be_of_val(lb);
        assert(p.len() == be_val(lb) && p.len() > 55);
        assert(be_bytes(p.len()) == lb);
        assert(rlp_list(p) =~= s) by {
            assert(rlp_list(p)[0] == (0xf7 + lb.len()) as u8);
            assert(forall|i: int| 0 <= i < lb.len() ==> #[trigger] lb[i] == s[i + 1]);
            assert(forall|i: int| 0 <= i < p.len() ==> #[trigger] p[i] == s[i + 1 + ll]);
        }
    }
}

/// The string encodings of a sequence of byte blobs: the items of an
/// encoded list of blobs.
pub open spec fn enc_strs(bs: Seq<Seq<u8>>) -> Seq<Seq<u8>> {
    bs.map_values(|b: Seq<u8>| rlp_str(b))
}

/// Concatenation of a sequence of byte sequences.
pub open spec fn cat(items: Seq<Seq<u8>>) -> Seq<u8>
    decreases items.len(),
{
    if items.len() == 0 {
        Seq::empty()
    } else {
        items[0] + cat(items.drop_first())
    }
}

/// Canonical encoding of a list of byte blobs.
pub open spec fn rlp_blob_list(bs: Seq<Seq<u8>>) -> Seq<u8> {
    rlp_list(cat(enc_strs(bs)))
}

pub proof fn lemma_cat1(a: Seq<u8>)
    ensures
        cat(seq![a]) == a,
{
    assert(seq![a].drop_first() =~= Seq::<Seq<u8>>::empty());
    assert(cat(seq![a]) == seq![a][0] + cat(seq![a].drop_first()));
    assert(cat(seq![a]) =~= a);
}

pub proof fn lemma_cat2(a: Seq<u8>, b: Seq<u8>)
    ensures
        cat(seq![a, b]) == a + b,
{
    assert(seq![a, b].drop_first() =~= seq![b]);
    lemma_cat1(b);
    assert(cat(seq![a, b]) =~= a + b);
}

pub proof fn lemma_cat3(a: Seq<u8>, b: Seq<u8>, c: Seq<u8>)
    ensures
        cat(seq![a, b, c]) == a + b + c,
{
    assert(seq![a, b, c].drop_first() =~= seq![b, c]);
    lemma_cat2(b, c);
    assert(cat(seq![a, b, c]) =~= a + b + c);
}

pub proof fn lemma_cat4(a: Seq<u8>, b: Seq<u8>, c: Seq<u8>, d: Seq<u8>)
    ensures
        cat(seq![a, b, c, d]) == a + b + c + d,
{
    assert(seq![a, b, c, d].drop_first() =~= seq![b, c, d]);
    lemma_cat3(b, c, d);
    assert(cat(seq![a, b, c, d]) =~= a + b + c + d);
}

pub proof fn lemma_cat5(a: Seq<u8>, b: Seq<u8>, c: Seq<u8>, d: Seq<u8>, e: Seq<u8>)
    ensures
        cat(seq![a, b, c, d, e]) == a + b + c + d + e,
{
    assert(seq![a, b, c, d, e].drop_first() =~= seq![b, c, d, e]);
    lemma_cat4(b, c, d, e);
    assert(cat(seq![a, b, c, d, e]) =~= a + b + c + d + e);
}

pub proof fn lemma_cat_push(items: Seq<Seq<u8>>, x: Seq<u8>)
    ensures
        cat(items.push(x)) == cat(items) + x,
    decreases items.len(),
{
    if items.len() == 0 {
        assert(items.push(x).drop_first() =~= Seq::<Seq<u8>>::empty());
        assert(cat(items.push(x)) == items.push(x)[0] + cat(items.push(x).drop_first()));
        assert(cat(items.push(x)) =~= x);
        assert(cat(items) + x =~= x);
    } else {
        assert(items.push(x).drop_first() =~= items.drop_first().push(x));
        lemma_cat_push(items.drop_first(), x);
        assert(cat(items.push(x)) =~= cat(items) + x);
    }
}

/// Every item is no longer than the whole concatenation.
pub proof fn lemma_item_le_cat(items: Seq<Seq<u8>>, i: int)
    requires
        0 <= i < items.len(),
    ensures
        items[i].len() <= cat(items).len(),
    decreases items.len(),
{
    if i > 0 {
        lemma_item_le_cat(items.drop_first(), i - 1);
    }
}

/// Split a concatenation of items back into the items, reading each
/// item's length from its own header; `None` where the bytes do not split
/// exactly.
pub open spec fn split_items(p: Seq<u8>) -> Option<Seq<Seq<u8>>>
    decreases p.len(),
{
    if p.len() == 0 {
        Some(Seq::empty())
    } else {
        match item_len(p) {
            None => None,
            Some(l) => if l < 1 || l > p.len() {
                None
            } else {
                match split_items(p.subrange(l, p.len() as int)) {
                    None => None,
                    Some(rest) => Some(seq![p.subrange(0, l)] + rest),
                }
            },
        }
    }
}

/// Splitting the concatenation of whole items recovers exactly the items.
pub proof fn lemma_split_of_cat(items: Seq<Seq<u8>>)
    requires
        forall|i: int| 0 <= i < items.len() ==> is_item(#[trigger] items[i]),
    ensures
        split_items(cat(items)) == Some(items),
    decreases items.len(),
{
    if items.len() == 0 {
        assert(split_items(cat(items)) =~~= Some(items));
    } else {
        let p = cat(items);
        let e0 = items[0];
        let l = e0.len() as int;
        assert(is_item(e0));
        assert(l >= 1);
        assert(forall|i: int|
            0 <= i < items.drop_first().len() ==> is_item(#[trigger] items.drop_first()[i]));
        lemma_split_of_cat(items.drop_first());
        let rest = cat(items.drop_first());
        assert(p == e0 + rest);
        assert(p.len() >= l);
        assert(p.subrange(0, l) =~= e0);
        assert(e0.subrange(0, l) =~= e0);
        lemma_item_len_agree(e0, p, l);
        assert(item_len(p) == Some(l));
        assert(p.subrange(l, p.len() as int) =~= rest);
        assert(seq![p.subrange(0, l)] + items.drop_first() =~~= items);
    }
}

/// Whatever a split accepts is the exact concatenation of whole items.
pub proof fn lemma_split_canonical(p: Seq<u8>)
    requires
        split_items(p) is Some,
    ensures
        cat(split_items(p)->Some_0) == p,
        forall|i: int|
            0 <= i < split_items(p)->Some_0.len() ==> is_item(
                #[trigger] split_items(p)->Some_0[i],
            ),
    decreases p.len(),
{
    let items = split_items(p)->Some_0;
    if p.len() == 0 {
        assert(cat(items) =~= p);
    } else {
        let l = item_len(p)->Some_0;
        let tail = p.subrange(l, p.len() as int);
        lemma_split_canonical(tail);
        let rest = split_items(tail)->Some_0;
        assert(items == seq![p.subrange(0, l)] + rest);
        let e0 = p.subrange(0, l);
        assert(is_item(e0)) by {
            assert(e0.subrange(0, l) =~= e0);
            assert(p.subrange(0, l) =~= e0);
            lemma_item_len_agree(p, e0, l);
        }
        assert(items.drop_first() =~= rest);
        assert(cat(items) == e0 + cat(rest));
        assert(e0 + tail =~= p);
        assert(forall|i: int| 0 <= i < items.len() ==> is_item(#[trigger] items[i])) by {
            assert(forall|i: int| 1 <= i < items.len() ==> items[i] == rest[i - 1]);
        }
    }
}

/// Integer encoding is injective.
pub proof fn lemma_rlp_uint_injective(a: nat, b: nat)
    requires
        a < pow256(8),
        b < pow256(8),
        rlp_uint(a) == rlp_uint(b),
    ensures
        a == b,
{
    lemma_pow256_values();
    lemma_be_len_le(a, 8);
    lemma_be_len_le(b, 8);
    lemma_rlp_str_injective(be_bytes(a), be_bytes(b));
    lemma_be_injective(a, b);
}

} // verus!
