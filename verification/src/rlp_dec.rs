//! Executable decoders for the wire format. Each parser is strict: it
//! accepts exactly the canonical encodings of `rlp_spec`, and its `None`
//! answer proves that no value encodes to the given bytes.
use vstd::prelude::*;
use crate::rlp_spec::be_bytes;
use crate::rlp_spec::be_val;
use crate::rlp_spec::cat;
use crate::rlp_spec::enc_strs;
use crate::rlp_spec::is_item;
use crate::rlp_spec::item_len;
use crate::rlp_spec::lemma_be_len_le;
use crate::rlp_spec::lemma_be_of_val;
use crate::rlp_spec::lemma_be_val_of_be;
use crate::rlp_spec::lemma_enc_len_ge;
use crate::rlp_spec::lemma_item_le_cat;
use crate::rlp_spec::lemma_list_payload_of_rlp_list;
use crate::rlp_spec::lemma_pow256_values;
use crate::rlp_spec::lemma_rlp_str_cases;
use crate::rlp_spec::lemma_rlp_str_injective;
use crate::rlp_spec::lemma_split_of_cat;
use crate::rlp_spec::list_payload;
use crate::rlp_spec::pow256;
use crate::rlp_spec::rlp_list;
use crate::rlp_spec::rlp_str;
use crate::rlp_spec::rlp_uint;
use crate::rlp_spec::split_items;

verus! {

/// The bytes of `b` between `start` and `end`, as a fresh vector.
pub fn copy_range(b: &Vec<u8>, start: usize, end: usize) -> (r: Vec<u8>)
    requires
        start <= end <= b@.len(),
    ensures
        r@ == b@.subrange(start as int, end as int),
{
    let mut r: Vec<u8> = Vec::new();
    let mut i: usize = start;
    while i < end
        invariant
            start <= i <= end <= b@.len(),
            r@ == b@.subrange(start as int, i as int),
        decreases end - i,
    {
        r.push(b[i]);
        proof {
            assert(b@.subrange(start as int, i as int).push(b@[i as int]) =~= b@.subrange(
                start as int,
                i + 1,
            ));
        }
        i = i + 1;
    }
    r
}

/// Big-endian value of the bytes between `start` and `end`.
pub fn read_be(b: &Vec<u8>, start: usize, end: usize) -> (r: u64)
    requires
        start <= end <= b@.len(),
        end - start <= 8,
    ensures
        r as nat == be_val(b@.subrange(start as int, end as int)),
{
    proof {
        lemma_pow256_values();
    }
    let mut acc: u64 = 0;
    let mut i: usize = start;
    while i < end
        invariant
            start <= i <= end <= b@.len(),
            end - start <= 8,
            acc as nat == be_val(b@.subrange(start as int, i as int)),
            (acc as nat) < pow256((i - start) as nat),
            pow256(8) == 0x1_0000_0000_0000_0000,
        decreases end - i,
    {
        proof {
            let sub = b@.subrange(start as int, i + 1);
            assert(sub.drop_last() =~= b@.subrange(start as int, i as int));
            assert(sub.last() == b@[i as int]);
            let p = pow256((i - start) as nat);
            assert(pow256((i + 1 - start) as nat) == 256 * p);
            assert(p <= pow256(7)) by {
                assert forall|j: nat, k: nat| j <= k implies pow256(j) <= pow256(k) by {
                    lemma_pow256_le(j, k);
                }
            }
            assert(pow256(7) * 256 == pow256(8)) by {
                reveal_with_fuel(pow256, 10);
            }
            assert((acc as nat) * 256 + 255 < 256 * p) by (nonlinear_arith)
                requires
                    (acc as nat) < p,
                    p >= 1,
            ;
            assert(256 * p <= pow256(8)) by (nonlinear_arith)
                requires
                    p <= pow256(7),
                    pow256(8) == pow256(7) * 256,
            ;
        }
        acc = acc * 256 + (b[i] as u64);
        i = i + 1;
    }
    proof {
        assert(b@.subrange(start as int, end as int) == b@.subrange(start as int, i as int));
    }
    acc
}

proof fn lemma_pow256_pos(k: nat)
    ensures
        pow256(k) >= 1,
    decreases k,
{
    if k > 0 {
        lemma_pow256_pos((k - 1) as nat);
        let p = pow256((k - 1) as nat);
        assert(256 * p >= p) by (nonlinear_arith)
            requires
                p >= 1,
        ;
    }
}

proof fn lemma_pow256_le(j: nat, k: nat)
    requires
        j <= k,
    ensures
        pow256(j) <= pow256(k),
    decreases k,
{
    if j < k {
        lemma_pow256_le(j, (k - 1) as nat);
        let p = pow256((k - 1) as nat);
        lemma_pow256_pos((k - 1) as nat);
        assert(256 * p >= p) by (nonlinear_arith)
            requires
                p >= 1,
        ;
    }
}

/// Length of the first item of `b[start..end]`, read from its header, as
/// `item_len` describes.
pub fn item_length(b: &Vec<u8>, start: usize, end: usize) -> (r: Option<usize>)
    requires
        start <= end <= b@.len(),
    ensures
        match r {
            Some(l) => item_len(b@.subrange(start as int, end as int)) == Some(l as int) && 1 <= l
                <= end - start,
            None => item_len(b@.subrange(start as int, end as int)) is None,
        },
{
    let ghost sub = b@.subrange(start as int, end as int);
    if start == end {
        return None;
    }
    let b0 = b[start];
    assert(sub[0] == b0);
    if b0 < 0x80 {
        Some(1)
    } else if b0 <= 0xb7 {
        let n = (b0 - 0x80) as usize;
        if end - start >= 1 + n {
            Some(1 + n)
        } else {
            None
        }
    } else if b0 <= 0xbf {
        let ll = (b0 - 0xb7) as usize;
        if end - start >= 1 + ll {
            let n = read_be(b, start + 1, start + 1 + ll);
            proof {
                assert(b@.subrange(start + 1, start + 1 + ll as int) =~= sub.subrange(
                    1,
                    1 + ll as int,
                ));
            }
            if n <= (end - start - 1 - ll) as u64 {
                Some(1 + ll + (n as usize))
            } else {
                None
            }
        } else {
            None
        }
    } else if b0 <= 0xf7 {
        let n = (b0 - 0xc0) as usize;
        if end - start >= 1 + n {
            Some(1 + n)
        } else {
            None
        }
    } else {
        let ll = (b0 - 0xf7) as usize;
        if end - start >= 1 + ll {
            let n = read_be(b, start + 1, start + 1 + ll);
            proof {
                assert(b@.subrange(start + 1, start + 1 + ll as int) =~= sub.subrange(
                    1,
                    1 + ll as int,
                ));
            }
            if n <= (end - start - 1 - ll) as u64 {
                Some(1 + ll + (n as usize))
            } else {
                None
            }
        } else {
            None
        }
    }
}

/// Strict parse of `b[start..end]` as one whole list. On success the
/// payload is `b[r..end]`; failure means the bytes are not a canonically
/// encoded list.
pub fn parse_list_header(b: &Vec<u8>, start: usize, end: usize) -> (r: Option<usize>)
    requires
        start <= end <= b@.len(),
    ensures
        match r {
            Some(ps) => start < ps <= end && list_payload(b@.subrange(start as int, end as int))
                == Some(b@.subrange(ps as int, end as int)),
            None => list_payload(b@.subrange(start as int, end as int)) is None,
        },
{
    let ghost sub = b@.subrange(start as int, end as int);
    if start == end {
        return None;
    }
    let b0 = b[start];
    assert(sub[0] == b0);
    if 0xc0 <= b0 && b0 <= 0xf7 {
        let n = (b0 - 0xc0) as usize;
        if end - start == 1 + n {
            proof {
                assert(sub.subrange(1, sub.len() as int) =~= b@.subrange(start + 1, end as int));
            }
            Some(start + 1)
        } else {
            None
        }
    } else if b0 >= 0xf8 {
        let ll = (b0 - 0xf7) as usize;
        if end - start >= 1 + ll {
            let lb0 = b[start + 1];
            let n = read_be(b, start + 1, start + 1 + ll);
            proof {
                assert(b@.subrange(start + 1, start + 1 + ll as int) =~= sub.subrange(
                    1,
                    1 + ll as int,
                ));
                assert(sub.subrange(1, 1 + ll as int)[0] == lb0);
            }
            if lb0 != 0 && n > 55 && n == (end - start - 1 - ll) as u64 {
                proof {
                    assert(sub.subrange(1 + ll as int, sub.len() as int) =~= b@.subrange(
                        start + 1 + ll as int,
                        end as int,
                    ));
                }
                Some(start + 1 + ll)
            } else {
                None
            }
        } else {
            None
        }
    } else {
        None
    }
}

/// Strict decode of one item as a byte string. `None` proves that the
/// bytes are not the canonical encoding of any string.
pub fn decode_str_item(b: &Vec<u8>, start: usize, end: usize) -> (r: Option<Vec<u8>>)
    requires
        start <= end <= b@.len(),
    ensures
        match r {
            Some(v) => b@.subrange(start as int, end as int) == rlp_str(v@),
            None => forall|s: Seq<u8>| b@.subrange(start as int, end as int) != rlp_str(s),
        },
{
    let ghost sub = b@.subrange(start as int, end as int);
    let len = end - start;
    proof {
        lemma_pow256_values();
    }
    if len == 0 {
        proof {
            assert forall|s: Seq<u8>| sub != rlp_str(s) by {
                lemma_enc_len_ge(s);
            }
        }
        return None;
    }
    let b0 = b[start];
    assert(sub[0] == b0);
    if b0 < 0x80 {
        if len == 1 {
            let mut v: Vec<u8> = Vec::new();
            v.push(b0);
            proof {
                assert(rlp_str(v@) =~= sub);
            }
            Some(v)
        } else {
            proof {
                assert forall|s: Seq<u8>| sub != rlp_str(s) by {
                    if sub == rlp_str(s) {
                        lemma_enc_len_ge(s);
                        lemma_rlp_str_cases(s, sub);
                    }
                }
            }
            None
        }
    } else if b0 <= 0xb7 {
        let pl = (b0 - 0x80) as usize;
        if len == 1 + pl {
            if pl == 1 && b[start + 1] < 0x80 {
                proof {
                    assert(sub[1] == b@[start + 1]);
                    assert forall|s: Seq<u8>| sub != rlp_str(s) by {
                        if sub == rlp_str(s) {
                            lemma_enc_len_ge(s);
                            lemma_rlp_str_cases(s, sub);
                        }
                    }
                }
                None
            } else {
                let v = copy_range(b, start + 1, end);
                proof {
                    assert(v@.len() == pl);
                    if pl == 1 {
                        assert(v@[0] == b@[start + 1]);
                    }
                    assert(rlp_str(v@) =~= sub);
                }
                Some(v)
            }
        } else {
            proof {
                assert forall|s: Seq<u8>| sub != rlp_str(s) by {
                    if sub == rlp_str(s) {
                        lemma_enc_len_ge(s);
                        lemma_rlp_str_cases(s, sub);
                    }
                }
            }
            None
        }
    } else if b0 <= 0xbf {
        let ll = (b0 - 0xb7) as usize;
        if len >= 1 + ll {
            let lb0 = b[start + 1];
            let n = read_be(b, start + 1, start + 1 + ll);
            proof {
                assert(b@.subrange(start + 1, start + 1 + ll as int) =~= sub.subrange(
                    1,
                    1 + ll as int,
                ));
                assert(sub.subrange(1, 1 + ll as int)[0] == sub[1]);
                assert(sub[1] == lb0);
            }
            if lb0 != 0 && n > 55 && n == (len - 1 - ll) as u64 {
                let v = copy_range(b, start + 1 + ll, end);
                proof {
                    let lb = sub.subrange(1, 1 + ll as int);
                    lemma_be_of_val(lb);
                    assert(be_bytes(v@.len()) == lb);
                    assert(rlp_str(v@) =~= sub);
                }
                Some(v)
            } else {
                proof {
                    assert forall|s: Seq<u8>| sub != rlp_str(s) by {
                        if sub == rlp_str(s) {
                            lemma_enc_len_ge(s);
                            lemma_rlp_str_cases(s, sub);
                            if s.len() > 55 {
                                assert(be_bytes(s.len()).len() == ll);
                                assert(sub.subrange(1, 1 + ll as int) == be_bytes(s.len()));
                                lemma_be_val_of_be(s.len());
                            }
                        }
                    }
                }
                None
            }
        } else {
            proof {
                assert forall|s: Seq<u8>| sub != rlp_str(s) by {
                    if sub == rlp_str(s) {
                        lemma_enc_len_ge(s);
                        lemma_rlp_str_cases(s, sub);
                    }
                }
            }
            None
        }
    } else {
        proof {
            assert forall|s: Seq<u8>| sub != rlp_str(s) by {
                if sub == rlp_str(s) {
                    lemma_enc_len_ge(s);
                    lemma_rlp_str_cases(s, sub);
                }
            }
        }
        None
    }
}

/// Strict decode of one item as an unsigned integer. `None` proves that
/// the bytes are not the canonical encoding of any 64-bit number.
pub fn decode_uint_item(b: &Vec<u8>, start: usize, end: usize) -> (r: Option<u64>)
    requires
        start <= end <= b@.len(),
    ensures
        match r {
            Some(n) => b@.subrange(start as int, end as int) == rlp_uint(n as nat),
            None => forall|n: u64| b@.subrange(start as int, end as int) != rlp_uint(n as nat),
        },
{
    let ghost sub = b@.subrange(start as int, end as int);
    proof {
        lemma_pow256_values();
    }
    match decode_str_item(b, start, end) {
        None => {
            proof {
                assert forall|n: u64| sub != rlp_uint(n as nat) by {}
            }
            None
        },
        Some(p) => {
            if p.len() > 8 || (p.len() >= 1 && p[0] == 0) {
                proof {
                    assert forall|n: u64| sub != rlp_uint(n as nat) by {
                        if sub == rlp_uint(n as nat) {
                            lemma_be_len_le(n as nat, 8);
                            lemma_rlp_str_injective(p@, be_bytes(n as nat));
                            if n > 0 {
                                crate::rlp_spec::lemma_be_no_leading_zero(n as nat);
                            }
                        }
                    }
                }
                None
            } else {
                let n = read_be(&p, 0, p.len());
                proof {
                    assert(p@.subrange(0, p@.len() as int) =~= p@);
                    lemma_be_of_val(p@);
                }
                Some(n)
            }
        },
    }
}

/// The byte ranges `rs` of `s`, read as the sequence of slices they name.
pub open spec fn ranges_view(s: Seq<u8>, rs: Seq<(usize, usize)>) -> Seq<Seq<u8>> {
    rs.map_values(|r: (usize, usize)| s.subrange(r.0 as int, r.1 as int))
}

/// The byte sequences a vector of byte vectors holds.
pub open spec fn blobs_of(v: Seq<Vec<u8>>) -> Seq<Seq<u8>> {
    v.map_values(|x: Vec<u8>| x@)
}

/// Split `b[ps..pe]` into the items it concatenates, returning their
/// ranges. `None` proves the bytes do not split into whole items.
pub fn split_range(b: &Vec<u8>, ps: usize, pe: usize) -> (r: Option<Vec<(usize, usize)>>)
    requires
        ps <= pe <= b@.len(),
    ensures
        match r {
            Some(v) => split_items(b@.subrange(ps as int, pe as int)) == Some(ranges_view(b@, v@))
                && forall|j: int| 0 <= j < v@.len() ==> ps <= (#[trigger] v@[j]).0 <= v@[j].1 <= pe,
            None => split_items(b@.subrange(ps as int, pe as int)) is None,
        },
{
    let ghost pay = b@.subrange(ps as int, pe as int);
    let mut v: Vec<(usize, usize)> = Vec::new();
    let mut pos: usize = ps;
    while pos < pe
        invariant
            ps <= pos <= pe <= b@.len(),
            pay == b@.subrange(ps as int, pe as int),
            forall|j: int| 0 <= j < v@.len() ==> ps <= (#[trigger] v@[j]).0 <= v@[j].1 <= pos,
            split_items(b@.subrange(pos as int, pe as int)) is Some ==> split_items(pay) == Some(
                ranges_view(b@, v@) + split_items(b@.subrange(pos as int, pe as int))->Some_0,
            ),
            split_items(b@.subrange(pos as int, pe as int)) is None ==> split_items(pay) is None,
        decreases pe - pos,
    {
        let ghost rem = b@.subrange(pos as int, pe as int);
        match item_length(b, pos, pe) {
            None => {
                proof {
                    assert(rem.len() > 0);
                    assert(split_items(rem) is None);
                }
                return None;
            },
            Some(l) => {
                proof {
                    let e0 = b@.subrange(pos as int, pos + l as int);
                    assert(rem.subrange(0, l as int) =~= e0);
                    assert(rem.subrange(l as int, rem.len() as int) =~= b@.subrange(
                        pos + l as int,
                        pe as int,
                    ));
                    assert(split_items(rem) == (match split_items(
                        b@.subrange(pos + l as int, pe as int),
                    ) {
                        None => None::<Seq<Seq<u8>>>,
                        Some(rest) => Some(seq![e0] + rest),
                    }));
                    assert(ranges_view(b@, v@.push((pos, (pos + l) as usize))) =~~= ranges_view(
                        b@,
                        v@,
                    ).push(e0));
                    if split_items(b@.subrange(pos + l as int, pe as int)) is Some {
                        let rest = split_items(b@.subrange(pos + l as int, pe as int))->Some_0;
                        assert(ranges_view(b@, v@).push(e0) + rest =~~= ranges_view(b@, v@) + (seq![
                            e0,
                        ] + rest));
                    }
                }
                v.push((pos, pos + l));
                pos = pos + l;
            },
        }
    }
    proof {
        assert(b@.subrange(pos as int, pe as int).len() == 0);
        assert(split_items(b@.subrange(pos as int, pe as int)) == Some(Seq::<Seq<u8>>::empty()));
        assert(ranges_view(b@, v@) + Seq::<Seq<u8>>::empty() =~~= ranges_view(b@, v@));
    }
    Some(v)
}

/// Strict decode of one item as a list of byte strings. `None` proves
/// that the bytes are not the canonical encoding of any such list.
pub fn decode_blob_list(b: &Vec<u8>, start: usize, end: usize) -> (r: Option<Vec<Vec<u8>>>)
    requires
        start <= end <= b@.len(),
    ensures
        match r {
            Some(v) => b@.subrange(start as int, end as int) == rlp_list(
                cat(enc_strs(blobs_of(v@))),
            ),
            None => forall|bs: Seq<Seq<u8>>|
                b@.subrange(start as int, end as int) != rlp_list(cat(enc_strs(bs))),
        },
{
    let ghost sub = b@.subrange(start as int, end as int);
    proof {
        lemma_pow256_values();
        assert(sub.len() < pow256(8));
    }
    let ps = match parse_list_header(b, start, end) {
        None => {
            proof {
                assert forall|bs: Seq<Seq<u8>>| sub != rlp_list(cat(enc_strs(bs))) by {
                    if sub == rlp_list(cat(enc_strs(bs))) {
                        lemma_enc_len_ge(cat(enc_strs(bs)));
                        lemma_list_payload_of_rlp_list(cat(enc_strs(bs)));
                    }
                }
            }
            return None;
        },
        Some(ps) => ps,
    };
    let ghost pay = b@.subrange(ps as int, end as int);
    let ranges = match split_range(b, ps, end) {
        None => {
            proof {
                assert forall|bs: Seq<Seq<u8>>| sub != rlp_list(cat(enc_strs(bs))) by {
                    if sub == rlp_list(cat(enc_strs(bs))) {
                        lemma_all_blob_items(bs, sub);
                        lemma_list_payload_of_rlp_list(cat(enc_strs(bs)));
                        lemma_split_of_cat(enc_strs(bs));
                    }
                }
            }
            return None;
        },
        Some(v) => v,
    };
    let ghost items = ranges_view(b@, ranges@);
    let mut out: Vec<Vec<u8>> = Vec::new();
    let mut i: usize = 0;
    while i < ranges.len()
        invariant
            i <= ranges@.len(),
            start <= ps <= end <= b@.len(),
            sub == b@.subrange(start as int, end as int),
            pay == b@.subrange(ps as int, end as int),
            items == ranges_view(b@, ranges@),
            list_payload(sub) == Some(pay),
            split_items(pay) == Some(items),
            forall|j: int|
                0 <= j < ranges@.len() ==> ps <= (#[trigger] ranges@[j]).0 <= ranges@[j].1 <= end,
            enc_strs(blobs_of(out@)) == items.take(i as int),
            out@.len() == i,
        decreases ranges@.len() - i,
    {
        let pr = ranges[i];
        match decode_str_item(b, pr.0, pr.1) {
            None => {
                proof {
                    lemma_pow256_values();
                    assert(sub.len() < pow256(8));
                    assert(items[i as int] == b@.subrange(pr.0 as int, pr.1 as int));
                    assert forall|bs: Seq<Seq<u8>>| sub != rlp_list(cat(enc_strs(bs))) by {
                        if sub == rlp_list(cat(enc_strs(bs))) {
                            lemma_all_blob_items(bs, sub);
                            lemma_list_payload_of_rlp_list(cat(enc_strs(bs)));
                            lemma_split_of_cat(enc_strs(bs));
                            assert(items == enc_strs(bs));
                            assert(items[i as int] == rlp_str(bs[i as int]));
                        }
                    }
                }
                return None;
            },
            Some(blob) => {
                proof {
                    assert(b@.subrange(pr.0 as int, pr.1 as int) == rlp_str(blob@));
                    assert(blobs_of(out@.push(blob)) =~~= blobs_of(out@).push(blob@));
                    assert(enc_strs(blobs_of(out@).push(blob@)) =~~= enc_strs(blobs_of(out@)).push(
                        rlp_str(blob@),
                    ));
                    assert(items.take(i as int).push(items[i as int]) =~~= items.take(i + 1));
                }
                out.push(blob);
            },
        }
        i = i + 1;
    }
    proof {
        assert(items.take(items.len() as int) =~~= items);
        crate::rlp_spec::lemma_list_payload_canonical(sub);
        crate::rlp_spec::lemma_split_canonical(pay);
    }
    Some(out)
}

/// Every item of an encoded blob list that fits in memory is one whole
/// item of bounded length.
proof fn lemma_all_blob_items(bs: Seq<Seq<u8>>, sub: Seq<u8>)
    requires
        sub == rlp_list(cat(enc_strs(bs))),
        sub.len() < pow256(8),
    ensures
        cat(enc_strs(bs)).len() < pow256(8),
        forall|k: int| 0 <= k < enc_strs(bs).len() ==> is_item(#[trigger] enc_strs(bs)[k]),
{
    let p = cat(enc_strs(bs));
    lemma_enc_len_ge(p);
    assert forall|k: int| 0 <= k < enc_strs(bs).len() implies is_item(
        #[trigger] enc_strs(bs)[k],
    ) by {
        lemma_item_le_cat(enc_strs(bs), k);
        lemma_enc_len_ge(bs[k]);
        assert(enc_strs(bs)[k] == rlp_str(bs[k]));
        crate::rlp_spec::lemma_rlp_str_is_item(bs[k]);
    }
}

} // verus!
