//! Versioned record codec: a stable binary encoding of the current
//! `TransactionDetails` shape, and decoders for the historical variants,
//! projected forward into the current shape.
//!
//! The encoding is the usual field-order binary form: little-endian
//! integers, `u32` length prefixes on sequences, one tag byte per enum
//! variant. Every decoder is exact: it succeeds precisely on the encodings
//! of well-sized values and returns the encoded value, which gives the
//! round-trip law `decode(encode(x)) == x`.

use vstd::prelude::*;
use vstd::bytes::{
    spec_u32_to_le_bytes,
    spec_u64_to_le_bytes,
    u32_from_le_bytes,
    u32_to_le_bytes,
    u64_from_le_bytes,
    u64_to_le_bytes,
    lemma_auto_spec_u32_to_from_le_bytes,
    lemma_auto_spec_u64_to_from_le_bytes,
};
use vstd::slice::{slice_subrange, slice_to_vec};
use crate::primitives::{
    CryptoHash,
    clone_bytes,
    ExecutionStatusView,
    SpecExecutionStatus,
    FinalExecutionStatus,
    SpecFinalExecutionStatus,
    AccountId,
    ReceiptView,
    SpecReceiptView,
    SignedTransactionView,
    SpecTransactionView,
    ExecutionOutcomeView,
    ExecutionOutcomeWithIdView,
    SpecOutcomeWithId,
    view_outcomes,
    view_receipts,
    TransactionDetails,
    SpecTransactionDetails,
};
use crate::hexutil::hash_bytes;

verus! {

/// The number of values a `u32` length prefix can carry.
pub open spec fn u32_bound() -> int {
    0x1_0000_0000
}

/// `p` is an initial segment of `s`.
pub open spec fn prefix_of(p: Seq<u8>, s: Seq<u8>) -> bool {
    p.len() <= s.len() && s.take(p.len() as int) == p
}

pub proof fn lemma_prefix_concat(a: Seq<u8>, b: Seq<u8>, s: Seq<u8>)
    ensures
        prefix_of(a + b, s) <==> (prefix_of(a, s) && prefix_of(b, s.skip(a.len() as int))),
{
    if prefix_of(a + b, s) {
        assert forall|i: int| 0 <= i < a.len() implies s[i] == a[i] by {
            assert(s.take((a + b).len() as int)[i] == (a + b)[i]);
        }
        assert(s.take(a.len() as int) =~= a);
        assert forall|i: int| 0 <= i < b.len() implies s.skip(a.len() as int)[i] == b[i] by {
            assert(s.take((a + b).len() as int)[a.len() + i] == (a + b)[a.len() + i]);
        }
        assert(s.skip(a.len() as int).take(b.len() as int) =~= b);
    }
    if prefix_of(a, s) && prefix_of(b, s.skip(a.len() as int)) {
        assert(s.take((a + b).len() as int) =~= a + b);
    }
}

pub proof fn lemma_skip_skip(s: Seq<u8>, i: int, j: int)
    requires
        0 <= i,
        0 <= j,
        i + j <= s.len(),
    ensures
        s.skip(i).skip(j) == s.skip(i + j),
{
    assert(s.skip(i).skip(j) =~= s.skip(i + j));
}

// ---------------------------------------------------------------------------
// Encodings, as spec functions.
// ---------------------------------------------------------------------------

pub open spec fn enc_u32(x: u32) -> Seq<u8> {
    spec_u32_to_le_bytes(x)
}

pub open spec fn enc_u64(x: u64) -> Seq<u8> {
    spec_u64_to_le_bytes(x)
}

/// A byte string: `u32` length prefix, then the raw bytes.
pub open spec fn enc_bytes(s: Seq<u8>) -> Seq<u8>
    recommends
        s.len() < u32_bound(),
{
    enc_u32(s.len() as u32) + s
}

// ---------------------------------------------------------------------------
// Scalar readers and writers.
// ---------------------------------------------------------------------------

pub fn write_u32(out: &mut Vec<u8>, x: u32)
    ensures
        final(out)@ == old(out)@ + enc_u32(x),
{
    let mut b = u32_to_le_bytes(x);
    out.append(&mut b);
}

pub fn write_u64(out: &mut Vec<u8>, x: u64)
    ensures
        final(out)@ == old(out)@ + enc_u64(x),
{
    let mut b = u64_to_le_bytes(x);
    out.append(&mut b);
}

pub fn write_bytes(out: &mut Vec<u8>, v: &Vec<u8>)
    requires
        v@.len() < u32_bound(),
    ensures
        final(out)@ == old(out)@ + enc_bytes(v@),
{
    proof {
        lemma_auto_spec_u32_to_from_le_bytes();
    }
    write_u32(out, v.len() as u32);
    let mut b = clone_bytes(v);
    out.append(&mut b);
    proof {
        assert(out@ =~= old(out)@ + enc_bytes(v@));
    }
}

pub fn read_u32(data: &Vec<u8>, pos: usize) -> (r: Option<(u32, usize)>)
    requires
        pos <= data@.len(),
    ensures
        match r {
            Some((v, p2)) => {
                &&& pos <= p2 <= data@.len()
                &&& data@.subrange(pos as int, p2 as int) == enc_u32(v)
            },
            None => true,
        },
        forall|w: u32| prefix_of(enc_u32(w), data@.skip(pos as int)) ==> {
            &&& r is Some
            &&& r->Some_0.0 == w
            &&& r->Some_0.1 == pos + enc_u32(w).len()
        },
{
    proof {
        lemma_auto_spec_u32_to_from_le_bytes();
    }
    if data.len() - pos >= 4 {
        let s = slice_subrange(data.as_slice(), pos, pos + 4);
        let x = u32_from_le_bytes(s);
        proof {
            assert(data@.subrange(pos as int, pos + 4) == s@);
            assert(spec_u32_to_le_bytes(x) == s@);
            assert forall|w: u32| prefix_of(enc_u32(w), data@.skip(pos as int)) implies x == w by {
                assert(data@.skip(pos as int).take(4) =~= s@);
            }
        }
        Some((x, pos + 4))
    } else {
        proof {
            assert forall|w: u32| !prefix_of(enc_u32(w), data@.skip(pos as int)) by {
                assert(enc_u32(w).len() == 4);
            }
        }
        None
    }
}

pub fn read_u64(data: &Vec<u8>, pos: usize) -> (r: Option<(u64, usize)>)
    requires
        pos <= data@.len(),
    ensures
        match r {
            Some((v, p2)) => {
                &&& pos <= p2 <= data@.len()
                &&& data@.subrange(pos as int, p2 as int) == enc_u64(v)
            },
            None => true,
        },
        forall|w: u64| prefix_of(enc_u64(w), data@.skip(pos as int)) ==> {
            &&& r is Some
            &&& r->Some_0.0 == w
            &&& r->Some_0.1 == pos + enc_u64(w).len()
        },
{
    proof {
        lemma_auto_spec_u64_to_from_le_bytes();
    }
    if data.len() - pos >= 8 {
        let s = slice_subrange(data.as_slice(), pos, pos + 8);
        let x = u64_from_le_bytes(s);
        proof {
            assert(data@.subrange(pos as int, pos + 8) == s@);
            assert(spec_u64_to_le_bytes(x) == s@);
            assert forall|w: u64| prefix_of(enc_u64(w), data@.skip(pos as int)) implies x == w by {
                assert(data@.skip(pos as int).take(8) =~= s@);
            }
        }
        Some((x, pos + 8))
    } else {
        proof {
            assert forall|w: u64| !prefix_of(enc_u64(w), data@.skip(pos as int)) by {
                assert(enc_u64(w).len() == 8);
            }
        }
        None
    }
}

pub fn read_bytes(data: &Vec<u8>, pos: usize) -> (r: Option<(Vec<u8>, usize)>)
    requires
        pos <= data@.len(),
    ensures
        match r {
            Some((v, p2)) => {
                &&& pos <= p2 <= data@.len()
                &&& v@.len() < u32_bound()
                &&& data@.subrange(pos as int, p2 as int) == enc_bytes(v@)
            },
            None => true,
        },
        forall|w: Seq<u8>|
            w.len() < u32_bound() && prefix_of(#[trigger] enc_bytes(w), data@.skip(pos as int))
                ==> {
                &&& r is Some
                &&& r->Some_0.0@ == w
                &&& r->Some_0.1 == pos + enc_bytes(w).len()
            },
{
    proof {
        lemma_auto_spec_u32_to_from_le_bytes();
    }
    match read_u32(data, pos) {
        None => {
            proof {
                assert forall|w: Seq<u8>|
                    w.len() < u32_bound() && prefix_of(
                        #[trigger] enc_bytes(w),
                        data@.skip(pos as int),
                    ) implies false by {
                    lemma_prefix_concat(enc_u32(w.len() as u32), w, data@.skip(pos as int));
                }
            }
            None
        },
        Some((n32, p)) => {
            let n = n32 as usize;
            if n <= data.len() - p {
                let s = slice_subrange(data.as_slice(), p, p + n);
                let v = slice_to_vec(s);
                proof {
                    assert(data@.subrange(pos as int, (p + n) as int) =~= enc_u32(n32)
                        + data@.subrange(p as int, (p + n) as int));
                    assert forall|w: Seq<u8>|
                        w.len() < u32_bound() && prefix_of(
                            #[trigger] enc_bytes(w),
                            data@.skip(pos as int),
                        ) implies v@ == w && p + n == pos + enc_bytes(w).len() by {
                        lemma_prefix_concat(enc_u32(w.len() as u32), w, data@.skip(pos as int));
                        assert(n32 == w.len() as u32);
                        lemma_skip_skip(data@, pos as int, 4);
                        assert(v@ =~= data@.skip(p as int).take(n as int));
                        assert(v@ =~= w);
                    }
                }
                Some((v, p + n))
            } else {
                proof {
                    assert forall|w: Seq<u8>|
                        w.len() < u32_bound() && prefix_of(
                            #[trigger] enc_bytes(w),
                            data@.skip(pos as int),
                        ) implies false by {
                        lemma_prefix_concat(enc_u32(w.len() as u32), w, data@.skip(pos as int));
                        assert(n32 == w.len() as u32);
                        lemma_skip_skip(data@, pos as int, 4);
                    }
                }
                None
            }
        },
    }
}

// ---------------------------------------------------------------------------
// Hashes.
// ---------------------------------------------------------------------------

pub fn write_hash(out: &mut Vec<u8>, h: &CryptoHash)
    ensures
        final(out)@ == old(out)@ + hash_bytes(*h),
{
    let mut b = h.to_bytes();
    out.append(&mut b);
}

pub fn read_hash(data: &Vec<u8>, pos: usize) -> (r: Option<(CryptoHash, usize)>)
    requires
        pos <= data@.len(),
    ensures
        match r {
            Some((v, p2)) => {
                &&& pos <= p2 <= data@.len()
                &&& data@.subrange(pos as int, p2 as int) == hash_bytes(v)
            },
            None => true,
        },
        forall|w: CryptoHash| prefix_of(#[trigger] hash_bytes(w), data@.skip(pos as int)) ==> {
            &&& r is Some
            &&& r->Some_0.0 == w
            &&& r->Some_0.1 == pos + hash_bytes(w).len()
        },
{
    proof {
        lemma_auto_spec_u64_to_from_le_bytes();
    }
    if data.len() - pos >= 32 {
        let s = slice_subrange(data.as_slice(), pos, pos + 32);
        let h = CryptoHash::from_bytes(s);
        proof {
            assert(data@.subrange(pos as int, pos + 32) == s@);
            assert forall|w: CryptoHash|
                prefix_of(#[trigger] hash_bytes(w), data@.skip(pos as int)) implies h == w by {
                crate::hexutil::lemma_hash_bytes_len(w);
                assert(data@.skip(pos as int).take(32) =~= s@);
                crate::hexutil::lemma_hash_bytes_injective(h, w);
            }
            crate::hexutil::lemma_hash_bytes_len(h);
        }
        Some((h, pos + 32))
    } else {
        proof {
            assert forall|w: CryptoHash|
                !prefix_of(#[trigger] hash_bytes(w), data@.skip(pos as int)) by {
                crate::hexutil::lemma_hash_bytes_len(w);
            }
        }
        None
    }
}

pub fn read_u8(data: &Vec<u8>, pos: usize) -> (r: Option<(u8, usize)>)
    requires
        pos <= data@.len(),
    ensures
        match r {
            Some((v, p2)) => {
                &&& pos <= p2 <= data@.len()
                &&& data@.subrange(pos as int, p2 as int) == seq![v]
            },
            None => true,
        },
        forall|w: u8| prefix_of(seq![w], data@.skip(pos as int)) ==> {
            &&& r is Some
            &&& r->Some_0.0 == w
            &&& r->Some_0.1 == pos + 1
        },
{
    if data.len() - pos >= 1 {
        let b = data[pos];
        proof {
            assert(data@.subrange(pos as int, pos + 1).len() == 1);
            assert(data@.subrange(pos as int, pos + 1)[0] == data@[pos as int]);
            assert(data@.subrange(pos as int, pos + 1) =~= seq![b]);
            assert forall|w: u8| prefix_of(seq![w], data@.skip(pos as int)) implies b == w by {
                assert(data@.skip(pos as int).take(1)[0] == data@.skip(pos as int)[0]);
                assert(data@.skip(pos as int)[0] == data@[pos as int]);
            }
        }
        Some((b, pos + 1))
    } else {
        None
    }
}

// ---------------------------------------------------------------------------
// Statuses.
// ---------------------------------------------------------------------------

/// The status of one execution outcome, one tag byte plus its payload.
pub open spec fn enc_status(s: SpecExecutionStatus) -> Seq<u8> {
    match s {
        SpecExecutionStatus::Unknown => seq![0u8],
        SpecExecutionStatus::Failure(e) => seq![1u8] + enc_bytes(e),
        SpecExecutionStatus::SuccessValue(v) => seq![2u8] + enc_bytes(v),
        SpecExecutionStatus::SuccessReceiptId(h) => seq![3u8] + hash_bytes(h),
    }
}

pub open spec fn status_ok(s: SpecExecutionStatus) -> bool {
    match s {
        SpecExecutionStatus::Unknown => true,
        SpecExecutionStatus::Failure(e) => e.len() < u32_bound(),
        SpecExecutionStatus::SuccessValue(v) => v.len() < u32_bound(),
        SpecExecutionStatus::SuccessReceiptId(_) => true,
    }
}

/// The final status, one tag byte plus its payload.
pub open spec fn enc_final_status(s: SpecFinalExecutionStatus) -> Seq<u8> {
    match s {
        SpecFinalExecutionStatus::NotStarted => seq![0u8],
        SpecFinalExecutionStatus::Started => seq![1u8],
        SpecFinalExecutionStatus::Failure(e) => seq![2u8] + enc_bytes(e),
        SpecFinalExecutionStatus::SuccessValue(v) => seq![3u8] + enc_bytes(v),
    }
}

pub open spec fn final_status_ok(s: SpecFinalExecutionStatus) -> bool {
    match s {
        SpecFinalExecutionStatus::NotStarted => true,
        SpecFinalExecutionStatus::Started => true,
        SpecFinalExecutionStatus::Failure(e) => e.len() < u32_bound(),
        SpecFinalExecutionStatus::SuccessValue(v) => v.len() < u32_bound(),
    }
}

pub fn write_status(out: &mut Vec<u8>, s: &ExecutionStatusView)
    requires
        status_ok(s@),
    ensures
        final(out)@ == old(out)@ + enc_status(s@),
{
    match s {
        ExecutionStatusView::Unknown => {
            out.push(0u8);
            proof {
                assert(out@ =~= old(out)@ + enc_status(s@));
            }
        },
        ExecutionStatusView::Failure(e) => {
            out.push(1u8);
            write_bytes(out, e);
            proof {
                assert(out@ =~= old(out)@ + enc_status(s@));
            }
        },
        ExecutionStatusView::SuccessValue(v) => {
            out.push(2u8);
            write_bytes(out, v);
            proof {
                assert(out@ =~= old(out)@ + enc_status(s@));
            }
        },
        ExecutionStatusView::SuccessReceiptId(h) => {
            out.push(3u8);
            write_hash(out, h);
            proof {
                assert(out@ =~= old(out)@ + enc_status(s@));
            }
        },
    }
}

pub fn write_final_status(out: &mut Vec<u8>, s: &FinalExecutionStatus)
    requires
        final_status_ok(s@),
    ensures
        final(out)@ == old(out)@ + enc_final_status(s@),
{
    match s {
        FinalExecutionStatus::NotStarted => {
            out.push(0u8);
            proof {
                assert(out@ =~= old(out)@ + enc_final_status(s@));
            }
        },
        FinalExecutionStatus::Started => {
            out.push(1u8);
            proof {
                assert(out@ =~= old(out)@ + enc_final_status(s@));
            }
        },
        FinalExecutionStatus::Failure(e) => {
            out.push(2u8);
            write_bytes(out, e);
            proof {
                assert(out@ =~= old(out)@ + enc_final_status(s@));
            }
        },
        FinalExecutionStatus::SuccessValue(v) => {
            out.push(3u8);
            write_bytes(out, v);
            proof {
                assert(out@ =~= old(out)@ + enc_final_status(s@));
            }
        },
    }
}

pub fn read_status(data: &Vec<u8>, pos: usize) -> (r: Option<(ExecutionStatusView, usize)>)
    requires
        pos <= data@.len(),
    ensures
        match r {
            Some((v, p2)) => {
                &&& pos <= p2 <= data@.len()
                &&& status_ok(v@)
                &&& data@.subrange(pos as int, p2 as int) == enc_status(v@)
            },
            None => true,
        },
        forall|w: SpecExecutionStatus|
            status_ok(w) && prefix_of(#[trigger] enc_status(w), data@.skip(pos as int)) ==> {
                &&& r is Some
                &&& r->Some_0.0@ == w
                &&& r->Some_0.1 == pos + enc_status(w).len()
            },
{
    let tag = match read_u8(data, pos) {
        None => {
            proof {
                assert forall|w: SpecExecutionStatus|
                    status_ok(w) && prefix_of(
                        #[trigger] enc_status(w),
                        data@.skip(pos as int),
                    ) implies false by {
                    lemma_status_head(w, data@.skip(pos as int));
                    lemma_prefix_concat(
                        seq![enc_status(w)[0]],
                        enc_status(w).skip(1),
                        data@.skip(pos as int),
                    );
                    assert(seq![enc_status(w)[0]] + enc_status(w).skip(1) =~= enc_status(w));
                }
            }
            return None;
        },
        Some((t, _)) => t,
    };
    let p1 = pos + 1;
    proof {
        assert(data@.skip(pos as int)[0] == data@.subrange(pos as int, pos + 1)[0]);
        assert forall|w: SpecExecutionStatus|
            status_ok(w) && prefix_of(#[trigger] enc_status(w), data@.skip(pos as int)) implies
            enc_status(w)[0] == tag && prefix_of(
                enc_status(w).skip(1),
                data@.skip(p1 as int),
            ) by {
            lemma_status_head(w, data@.skip(pos as int));
            lemma_prefix_concat(seq![enc_status(w)[0]], enc_status(w).skip(1), data@.skip(pos as int));
            assert(seq![enc_status(w)[0]] + enc_status(w).skip(1) =~= enc_status(w));
            lemma_skip_skip(data@, pos as int, 1);
        }
    }
    if tag == 0u8 {
        proof {
            assert forall|w: SpecExecutionStatus|
                status_ok(w) && prefix_of(#[trigger] enc_status(w), data@.skip(pos as int))
                    implies w is Unknown by {
                match w {
                    SpecExecutionStatus::Unknown => {},
                    SpecExecutionStatus::Failure(_) => {},
                    SpecExecutionStatus::SuccessValue(_) => {},
                    SpecExecutionStatus::SuccessReceiptId(_) => {},
                }
            }
            assert(data@.subrange(pos as int, p1 as int) =~= enc_status(SpecExecutionStatus::Unknown));
        }
        Some((ExecutionStatusView::Unknown, p1))
    } else if tag == 1u8 {
        match read_bytes(data, p1) {
            None => {
                proof {
                    lemma_no_status_target(data@, pos as int, 1u8);
                }
                None
            },
            Some((e, p2)) => {
                let v = ExecutionStatusView::Failure(e);
                proof {
                    assert(data@.subrange(pos as int, p2 as int) =~= seq![1u8] + data@.subrange(
                        p1 as int,
                        p2 as int,
                    ));
                    assert forall|w: SpecExecutionStatus|
                        status_ok(w) && prefix_of(#[trigger] enc_status(w), data@.skip(pos as int))
                            implies w == v@ && pos + enc_status(w).len() == p2 by {
                        match w {
                            SpecExecutionStatus::Failure(we) => {
                                assert(enc_status(w).skip(1) =~= enc_bytes(we));
                            },
                            _ => {},
                        }
                    }
                }
                Some((v, p2))
            },
        }
    } else if tag == 2u8 {
        match read_bytes(data, p1) {
            None => {
                proof {
                    lemma_no_status_target(data@, pos as int, 2u8);
                }
                None
            },
            Some((val, p2)) => {
                let v = ExecutionStatusView::SuccessValue(val);
                proof {
                    assert(data@.subrange(pos as int, p2 as int) =~= seq![2u8] + data@.subrange(
                        p1 as int,
                        p2 as int,
                    ));
                    assert forall|w: SpecExecutionStatus|
                        status_ok(w) && prefix_of(#[trigger] enc_status(w), data@.skip(pos as int))
                            implies w == v@ && pos + enc_status(w).len() == p2 by {
                        match w {
                            SpecExecutionStatus::SuccessValue(wv) => {
                                assert(enc_status(w).skip(1) =~= enc_bytes(wv));
                            },
                            _ => {},
                        }
                    }
                }
                Some((v, p2))
            },
        }
    } else if tag == 3u8 {
        match read_hash(data, p1) {
            None => {
                proof {
                    lemma_no_status_target(data@, pos as int, 3u8);
                }
                None
            },
            Some((h, p2)) => {
                let v = ExecutionStatusView::SuccessReceiptId(h);
                proof {
                    assert(data@.subrange(pos as int, p2 as int) =~= seq![3u8] + data@.subrange(
                        p1 as int,
                        p2 as int,
                    ));
                    assert forall|w: SpecExecutionStatus|
                        status_ok(w) && prefix_of(#[trigger] enc_status(w), data@.skip(pos as int))
                            implies w == v@ && pos + enc_status(w).len() == p2 by {
                        match w {
                            SpecExecutionStatus::SuccessReceiptId(wh) => {
                                assert(enc_status(w).skip(1) =~= hash_bytes(wh));
                            },
                            _ => {},
                        }
                    }
                }
                Some((v, p2))
            },
        }
    } else {
        proof {
            assert forall|w: SpecExecutionStatus|
                status_ok(w) && prefix_of(#[trigger] enc_status(w), data@.skip(pos as int))
                    implies false by {
                match w {
                    SpecExecutionStatus::Unknown => {},
                    SpecExecutionStatus::Failure(_) => {},
                    SpecExecutionStatus::SuccessValue(_) => {},
                    SpecExecutionStatus::SuccessReceiptId(_) => {},
                }
            }
        }
        None
    }
}

pub fn read_final_status(data: &Vec<u8>, pos: usize) -> (r: Option<(FinalExecutionStatus, usize)>)
    requires
        pos <= data@.len(),
    ensures
        match r {
            Some((v, p2)) => {
                &&& pos <= p2 <= data@.len()
                &&& final_status_ok(v@)
                &&& data@.subrange(pos as int, p2 as int) == enc_final_status(v@)
            },
            None => true,
        },
        forall|w: SpecFinalExecutionStatus|
            final_status_ok(w) && prefix_of(#[trigger] enc_final_status(w), data@.skip(pos as int))
                ==> {
                &&& r is Some
                &&& r->Some_0.0@ == w
                &&& r->Some_0.1 == pos + enc_final_status(w).len()
            },
{
    let tag = match read_u8(data, pos) {
        None => {
            proof {
                assert forall|w: SpecFinalExecutionStatus|
                    final_status_ok(w) && prefix_of(
                        #[trigger] enc_final_status(w),
                        data@.skip(pos as int),
                    ) implies false by {
                    lemma_final_status_head(w);
                    lemma_prefix_concat(
                        seq![enc_final_status(w)[0]],
                        enc_final_status(w).skip(1),
                        data@.skip(pos as int),
                    );
                    assert(seq![enc_final_status(w)[0]] + enc_final_status(w).skip(1)
                        =~= enc_final_status(w));
                }
            }
            return None;
        },
        Some((t, _)) => t,
    };
    let p1 = pos + 1;
    proof {
        assert(data@.skip(pos as int)[0] == data@.subrange(pos as int, pos + 1)[0]);
        assert forall|w: SpecFinalExecutionStatus|
            final_status_ok(w) && prefix_of(
                #[trigger] enc_final_status(w),
                data@.skip(pos as int),
            ) implies enc_final_status(w)[0] == tag && prefix_of(
                enc_final_status(w).skip(1),
                data@.skip(p1 as int),
            ) by {
            lemma_final_status_head(w);
            lemma_prefix_concat(
                seq![enc_final_status(w)[0]],
                enc_final_status(w).skip(1),
                data@.skip(pos as int),
            );
            assert(seq![enc_final_status(w)[0]] + enc_final_status(w).skip(1)
                =~= enc_final_status(w));
            lemma_skip_skip(data@, pos as int, 1);
        }
    }
    if tag == 0u8 {
        proof {
            assert(data@.subrange(pos as int, p1 as int) =~= enc_final_status(
                SpecFinalExecutionStatus::NotStarted,
            ));
        }
        Some((FinalExecutionStatus::NotStarted, p1))
    } else if tag == 1u8 {
        proof {
            assert(data@.subrange(pos as int, p1 as int) =~= enc_final_status(
                SpecFinalExecutionStatus::Started,
            ));
        }
        Some((FinalExecutionStatus::Started, p1))
    } else if tag == 2u8 {
        match read_bytes(data, p1) {
            None => {
                proof {
                    assert forall|w: SpecFinalExecutionStatus|
                        final_status_ok(w) && prefix_of(
                            #[trigger] enc_final_status(w),
                            data@.skip(pos as int),
                        ) implies false by {
                        match w {
                            SpecFinalExecutionStatus::Failure(e) => {
                                assert(enc_final_status(w).skip(1) =~= enc_bytes(e));
                            },
                            _ => {},
                        }
                    }
                }
                None
            },
            Some((e, p2)) => {
                let v = FinalExecutionStatus::Failure(e);
                proof {
                    assert(data@.subrange(pos as int, p2 as int) =~= seq![2u8] + data@.subrange(
                        p1 as int,
                        p2 as int,
                    ));
                    assert forall|w: SpecFinalExecutionStatus|
                        final_status_ok(w) && prefix_of(
                            #[trigger] enc_final_status(w),
                            data@.skip(pos as int),
                        ) implies w == v@ && pos + enc_final_status(w).len() == p2 by {
                        match w {
                            SpecFinalExecutionStatus::Failure(we) => {
                                assert(enc_final_status(w).skip(1) =~= enc_bytes(we));
                            },
                            _ => {},
                        }
                    }
                }
                Some((v, p2))
            },
        }
    } else if tag == 3u8 {
        match read_bytes(data, p1) {
            None => {
                proof {
                    assert forall|w: SpecFinalExecutionStatus|
                        final_status_ok(w) && prefix_of(
                            #[trigger] enc_final_status(w),
                            data@.skip(pos as int),
                        ) implies false by {
                        match w {
                            SpecFinalExecutionStatus::SuccessValue(wv) => {
                                assert(enc_final_status(w).skip(1) =~= enc_bytes(wv));
                            },
                            _ => {},
                        }
                    }
                }
                None
            },
            Some((val, p2)) => {
                let v = FinalExecutionStatus::SuccessValue(val);
                proof {
                    assert(data@.subrange(pos as int, p2 as int) =~= seq![3u8] + data@.subrange(
                        p1 as int,
                        p2 as int,
                    ));
                    assert forall|w: SpecFinalExecutionStatus|
                        final_status_ok(w) && prefix_of(
                            #[trigger] enc_final_status(w),
                            data@.skip(pos as int),
                        ) implies w == v@ && pos + enc_final_status(w).len() == p2 by {
                        match w {
                            SpecFinalExecutionStatus::SuccessValue(wv) => {
                                assert(enc_final_status(w).skip(1) =~= enc_bytes(wv));
                            },
                            _ => {},
                        }
                    }
                }
                Some((v, p2))
            },
        }
    } else {
        proof {
            assert forall|w: SpecFinalExecutionStatus|
                final_status_ok(w) && prefix_of(
                    #[trigger] enc_final_status(w),
                    data@.skip(pos as int),
                ) implies false by {
                match w {
                    SpecFinalExecutionStatus::NotStarted => {},
                    SpecFinalExecutionStatus::Started => {},
                    SpecFinalExecutionStatus::Failure(_) => {},
                    SpecFinalExecutionStatus::SuccessValue(_) => {},
                }
            }
        }
        None
    }
}

/// The first byte of a final-status encoding is its tag.
proof fn lemma_final_status_head(w: SpecFinalExecutionStatus)
    ensures
        enc_final_status(w).len() >= 1,
        enc_final_status(w)[0] == (match w {
            SpecFinalExecutionStatus::NotStarted => 0u8,
            SpecFinalExecutionStatus::Started => 1u8,
            SpecFinalExecutionStatus::Failure(_) => 2u8,
            SpecFinalExecutionStatus::SuccessValue(_) => 3u8,
        }),
{
    match w {
        SpecFinalExecutionStatus::NotStarted => {},
        SpecFinalExecutionStatus::Started => {},
        SpecFinalExecutionStatus::Failure(_) => {},
        SpecFinalExecutionStatus::SuccessValue(_) => {},
    }
}

/// The first byte of a status encoding is its tag, and the encoding is
/// nonempty.
proof fn lemma_status_head(w: SpecExecutionStatus, s: Seq<u8>)
    ensures
        enc_status(w).len() >= 1,
        enc_status(w)[0] == (match w {
            SpecExecutionStatus::Unknown => 0u8,
            SpecExecutionStatus::Failure(_) => 1u8,
            SpecExecutionStatus::SuccessValue(_) => 2u8,
            SpecExecutionStatus::SuccessReceiptId(_) => 3u8,
        }),
{
    match w {
        SpecExecutionStatus::Unknown => {},
        SpecExecutionStatus::Failure(e) => {},
        SpecExecutionStatus::SuccessValue(v) => {},
        SpecExecutionStatus::SuccessReceiptId(h) => {},
    }
}

/// When a payload read fails under tag `t`, no status with that tag can be
/// encoded at `pos`; used in the failing branches of `read_status`.
proof fn lemma_no_status_target(data: Seq<u8>, pos: int, t: u8)
    requires
        0 <= pos < data.len(),
        data[pos] == t,
        t == 1u8 || t == 2u8 || t == 3u8,
        forall|b: Seq<u8>|
            !(b.len() < u32_bound() && prefix_of(#[trigger] enc_bytes(b), data.skip(pos + 1)))
            || t == 3u8,
        forall|h: CryptoHash| !prefix_of(#[trigger] hash_bytes(h), data.skip(pos + 1)) || t != 3u8,
    ensures
        forall|w: SpecExecutionStatus|
            !(status_ok(w) && prefix_of(#[trigger] enc_status(w), data.skip(pos))),
{
    assert forall|w: SpecExecutionStatus|
        status_ok(w) && prefix_of(#[trigger] enc_status(w), data.skip(pos)) implies false by {
        lemma_status_head(w, data.skip(pos));
        assert(data.skip(pos)[0] == t);
        lemma_prefix_concat(seq![enc_status(w)[0]], enc_status(w).skip(1), data.skip(pos));
        assert(seq![enc_status(w)[0]] + enc_status(w).skip(1) =~= enc_status(w));
        assert(data.skip(pos).skip(1) =~= data.skip(pos + 1));
        match w {
            SpecExecutionStatus::Unknown => {},
            SpecExecutionStatus::Failure(e) => {
                assert(enc_status(w).skip(1) =~= enc_bytes(e));
            },
            SpecExecutionStatus::SuccessValue(v) => {
                assert(enc_status(w).skip(1) =~= enc_bytes(v));
            },
            SpecExecutionStatus::SuccessReceiptId(h) => {
                assert(enc_status(w).skip(1) =~= hash_bytes(h));
            },
        }
    }
}

// ---------------------------------------------------------------------------
// Sequences of hashes.
// ---------------------------------------------------------------------------

/// The concatenated encodings of a list of hashes.
pub open spec fn enc_hash_elems(s: Seq<CryptoHash>) -> Seq<u8>
    decreases s.len(),
{
    if s.len() == 0 {
        Seq::empty()
    } else {
        hash_bytes(s[0]) + enc_hash_elems(s.skip(1))
    }
}

/// A list of hashes: `u32` count, then the elements.
pub open spec fn enc_hash_vec(s: Seq<CryptoHash>) -> Seq<u8>
    recommends
        s.len() < u32_bound(),
{
    enc_u32(s.len() as u32) + enc_hash_elems(s)
}

pub proof fn lemma_hash_elems_concat(a: Seq<CryptoHash>, b: Seq<CryptoHash>)
    ensures
        enc_hash_elems(a + b) == enc_hash_elems(a) + enc_hash_elems(b),
    decreases a.len(),
{
    if a.len() == 0 {
        assert(a + b =~= b);
        assert(enc_hash_elems(a) + enc_hash_elems(b) =~= enc_hash_elems(b));
    } else {
        assert((a + b).skip(1) =~= a.skip(1) + b);
        lemma_hash_elems_concat(a.skip(1), b);
        assert(enc_hash_elems(a + b) =~= enc_hash_elems(a) + enc_hash_elems(b));
    }
}

pub proof fn lemma_hash_elems_push(s: Seq<CryptoHash>, x: CryptoHash)
    ensures
        enc_hash_elems(s.push(x)) == enc_hash_elems(s) + hash_bytes(x),
{
    assert(s.push(x) =~= s + seq![x]);
    lemma_hash_elems_concat(s, seq![x]);
    let s1 = seq![x];
    assert(enc_hash_elems(s1) == hash_bytes(s1[0]) + enc_hash_elems(s1.skip(1)));
    assert(s1.skip(1) =~= Seq::<CryptoHash>::empty());
    assert(enc_hash_elems(Seq::<CryptoHash>::empty()) == Seq::<u8>::empty());
    assert(enc_hash_elems(s1) =~= hash_bytes(x));
}

pub fn write_hash_vec(out: &mut Vec<u8>, v: &Vec<CryptoHash>)
    requires
        v@.len() < u32_bound(),
    ensures
        final(out)@ == old(out)@ + enc_hash_vec(v@),
{
    proof {
        lemma_auto_spec_u32_to_from_le_bytes();
    }
    write_u32(out, v.len() as u32);
    let mut i: usize = 0;
    while i < v.len()
        invariant
            i <= v@.len(),
            v@.len() < u32_bound(),
            out@ == old(out)@ + enc_u32(v@.len() as u32) + enc_hash_elems(v@.take(i as int)),
        decreases v@.len() - i,
    {
        write_hash(out, &v[i]);
        proof {
            assert(v@.take(i + 1) =~= v@.take(i as int).push(v@[i as int]));
            lemma_hash_elems_push(v@.take(i as int), v@[i as int]);
            assert(out@ =~= old(out)@ + enc_u32(v@.len() as u32) + enc_hash_elems(
                v@.take(i + 1),
            ));
        }
        i = i + 1;
    }
    proof {
        assert(v@.take(v@.len() as int) =~= v@);
        assert(out@ =~= old(out)@ + enc_hash_vec(v@));
    }
}

pub fn read_hash_vec(data: &Vec<u8>, pos: usize) -> (r: Option<(Vec<CryptoHash>, usize)>)
    requires
        pos <= data@.len(),
    ensures
        match r {
            Some((v, p2)) => {
                &&& pos <= p2 <= data@.len()
                &&& v@.len() < u32_bound()
                &&& data@.subrange(pos as int, p2 as int) == enc_hash_vec(v@)
            },
            None => true,
        },
        forall|w: Seq<CryptoHash>|
            w.len() < u32_bound() && prefix_of(#[trigger] enc_hash_vec(w), data@.skip(pos as int))
                ==> {
                &&& r is Some
                &&& r->Some_0.0@ == w
                &&& r->Some_0.1 == pos + enc_hash_vec(w).len()
            },
{
    proof {
        lemma_auto_spec_u32_to_from_le_bytes();
    }
    let (n32, p0) = match read_u32(data, pos) {
        None => {
            proof {
                assert forall|w: Seq<CryptoHash>|
                    w.len() < u32_bound() && prefix_of(
                        #[trigger] enc_hash_vec(w),
                        data@.skip(pos as int),
                    ) implies false by {
                    lemma_prefix_concat(
                        enc_u32(w.len() as u32),
                        enc_hash_elems(w),
                        data@.skip(pos as int),
                    );
                }
            }
            return None;
        },
        Some(x) => x,
    };
    proof {
        assert forall|w: Seq<CryptoHash>|
            w.len() < u32_bound() && prefix_of(
                #[trigger] enc_hash_vec(w),
                data@.skip(pos as int),
            ) implies w.len() as u32 == n32 && prefix_of(
                enc_hash_elems(w),
                data@.skip(p0 as int),
            ) by {
            lemma_prefix_concat(enc_u32(w.len() as u32), enc_hash_elems(w), data@.skip(pos as int));
            lemma_skip_skip(data@, pos as int, 4);
        }
    }
    let n = n32 as usize;
    let mut out: Vec<CryptoHash> = Vec::new();
    let mut p = p0;
    let mut j: usize = 0;
    while j < n
        invariant
            pos + 4 == p0,
            p0 <= p <= data@.len(),
            j <= n,
            n == n32 as usize,
            out@.len() == j,
            data@.subrange(pos as int, p0 as int) == enc_u32(n32),
            data@.subrange(p0 as int, p as int) == enc_hash_elems(out@),
            forall|w: Seq<CryptoHash>|
                w.len() < u32_bound() && prefix_of(
                    #[trigger] enc_hash_vec(w),
                    data@.skip(pos as int),
                ) ==> w.len() == n && out@ == w.take(j as int),
        decreases n - j,
    {
        let ghost out_old = out@;
        let ghost p_old = p as int;
        match read_hash(data, p) {
            None => {
                proof {
                    assert forall|w: Seq<CryptoHash>|
                        w.len() < u32_bound() && prefix_of(
                            #[trigger] enc_hash_vec(w),
                            data@.skip(pos as int),
                        ) implies false by {
                        lemma_target_elem_prefix(data@, pos as int, p0 as int, p_old, w, out_old, j as int);
                    }
                }
                return None;
            },
            Some((h, p2)) => {
                out.push(h);
                proof {
                    lemma_hash_elems_push(out_old, h);
                    assert(data@.subrange(p0 as int, p2 as int) =~= data@.subrange(
                        p0 as int,
                        p_old,
                    ) + data@.subrange(p_old, p2 as int));
                    assert forall|w: Seq<CryptoHash>|
                        w.len() < u32_bound() && prefix_of(
                            #[trigger] enc_hash_vec(w),
                            data@.skip(pos as int),
                        ) implies out@ == w.take(j + 1) by {
                        lemma_target_elem_prefix(data@, pos as int, p0 as int, p_old, w, out_old, j as int);
                        assert(w.take(j + 1) =~= w.take(j as int).push(w[j as int]));
                    }
                }
                p = p2;
                j = j + 1;
            },
        }
    }
    proof {
        assert(data@.subrange(pos as int, p as int) =~= data@.subrange(pos as int, p0 as int)
            + data@.subrange(p0 as int, p as int));
        assert(out@.len() as u32 == n32);
        assert(data@.subrange(pos as int, p as int) == enc_hash_vec(out@));
        assert forall|w: Seq<CryptoHash>|
            w.len() < u32_bound() && prefix_of(#[trigger] enc_hash_vec(w), data@.skip(pos as int))
                implies out@ == w && p == pos + enc_hash_vec(w).len() by {
            assert(w.take(w.len() as int) =~= w);
            assert(enc_hash_elems(w) == enc_hash_elems(out@));
            assert(enc_hash_vec(w).len() == 4 + enc_hash_elems(w).len());
            assert(p - p0 == enc_hash_elems(out@).len());
        }
    }
    Some((out, p))
}

/// Inside the element loop of a hash-list decode: for a target list `w`
/// whose encoding sits at `pos`, with `j` elements already matched at
/// position `p`, the next element's bytes sit at `p`.
proof fn lemma_target_elem_prefix(
    data: Seq<u8>,
    pos: int,
    p0: int,
    p: int,
    w: Seq<CryptoHash>,
    out: Seq<CryptoHash>,
    j: int,
)
    requires
        0 <= pos,
        pos + 4 == p0,
        p0 <= p <= data.len(),
        w.len() < u32_bound(),
        prefix_of(enc_hash_vec(w), data.skip(pos)),
        out.len() == j,
        j < w.len(),
        out == w.take(j),
        data.subrange(p0, p) == enc_hash_elems(out),
    ensures
        prefix_of(hash_bytes(w[j]), data.skip(p)),
{
    lemma_auto_spec_u32_to_from_le_bytes();
    lemma_prefix_concat(enc_u32(w.len() as u32), enc_hash_elems(w), data.skip(pos));
    lemma_skip_skip(data, pos, 4);
    assert(prefix_of(enc_hash_elems(w), data.skip(p0)));
    assert(w =~= w.take(j) + w.skip(j));
    lemma_hash_elems_concat(w.take(j), w.skip(j));
    assert(enc_hash_elems(w) == enc_hash_elems(out) + enc_hash_elems(w.skip(j)));
    lemma_prefix_concat(enc_hash_elems(out), enc_hash_elems(w.skip(j)), data.skip(p0));
    lemma_skip_skip(data, p0, p - p0);
    assert(enc_hash_elems(out).len() == p - p0);
    assert(prefix_of(enc_hash_elems(w.skip(j)), data.skip(p)));
    assert(w.skip(j).len() > 0);
    assert(enc_hash_elems(w.skip(j)) == hash_bytes(w.skip(j)[0]) + enc_hash_elems(
        w.skip(j).skip(1),
    ));
    assert(w.skip(j)[0] == w[j]);
    lemma_prefix_concat(hash_bytes(w[j]), enc_hash_elems(w.skip(j).skip(1)), data.skip(p));
}

// ---------------------------------------------------------------------------
// Account names.
// ---------------------------------------------------------------------------

pub open spec fn enc_account(a: Seq<u8>) -> Seq<u8>
    recommends
        a.len() < u32_bound(),
{
    enc_bytes(a)
}

pub fn write_account(out: &mut Vec<u8>, a: &AccountId)
    requires
        a@.len() < u32_bound(),
    ensures
        final(out)@ == old(out)@ + enc_account(a@),
{
    write_bytes(out, &a.bytes);
}

pub fn read_account(data: &Vec<u8>, pos: usize) -> (r: Option<(AccountId, usize)>)
    requires
        pos <= data@.len(),
    ensures
        match r {
            Some((v, p2)) => {
                &&& pos <= p2 <= data@.len()
                &&& v@.len() < u32_bound()
                &&& data@.subrange(pos as int, p2 as int) == enc_account(v@)
            },
            None => true,
        },
        forall|w: Seq<u8>|
            w.len() < u32_bound() && prefix_of(#[trigger] enc_account(w), data@.skip(pos as int))
                ==> {
                &&& r is Some
                &&& r->Some_0.0@ == w
                &&& r->Some_0.1 == pos + enc_account(w).len()
            },
{
    match read_bytes(data, pos) {
        None => None,
        Some((b, p2)) => Some((AccountId { bytes: b }, p2)),
    }
}

// ---------------------------------------------------------------------------
// Receipts (current shape).
// ---------------------------------------------------------------------------

pub open spec fn enc_receipt(r: SpecReceiptView) -> Seq<u8> {
    hash_bytes(r.receipt_id) + enc_u64(r.priority)
}

pub fn write_receipt(out: &mut Vec<u8>, r: &ReceiptView)
    ensures
        final(out)@ == old(out)@ + enc_receipt(r@),
{
    write_hash(out, &r.receipt_id);
    write_u64(out, r.priority);
    proof {
        assert(out@ =~= old(out)@ + enc_receipt(r@));
    }
}

pub fn read_receipt(data: &Vec<u8>, pos: usize) -> (r: Option<(ReceiptView, usize)>)
    requires
        pos <= data@.len(),
    ensures
        match r {
            Some((v, p2)) => {
                &&& pos <= p2 <= data@.len()
                &&& data@.subrange(pos as int, p2 as int) == enc_receipt(v@)
            },
            None => true,
        },
        forall|w: SpecReceiptView|
            prefix_of(#[trigger] enc_receipt(w), data@.skip(pos as int)) ==> {
                &&& r is Some
                &&& r->Some_0.0@ == w
                &&& r->Some_0.1 == pos + enc_receipt(w).len()
            },
{
    proof {
        assert forall|w: SpecReceiptView|
            prefix_of(#[trigger] enc_receipt(w), data@.skip(pos as int)) implies prefix_of(
            hash_bytes(w.receipt_id),
            data@.skip(pos as int),
        ) by {
            lemma_prefix_concat(hash_bytes(w.receipt_id), enc_u64(w.priority), data@.skip(pos as int));
        }
    }
    let (id, pa) = match read_hash(data, pos) {
        None => {
            return None;
        },
        Some(x) => x,
    };
    proof {
        crate::hexutil::lemma_hash_bytes_len(id);
        assert forall|w: SpecReceiptView|
            prefix_of(#[trigger] enc_receipt(w), data@.skip(pos as int)) implies w.receipt_id == id
            && prefix_of(enc_u64(w.priority), data@.skip(pa as int)) by {
            lemma_prefix_concat(hash_bytes(w.receipt_id), enc_u64(w.priority), data@.skip(pos as int));
            crate::hexutil::lemma_hash_bytes_len(w.receipt_id);
            lemma_skip_skip(data@, pos as int, 32);
        }
    }
    let (pr, p2) = match read_u64(data, pa) {
        None => {
            return None;
        },
        Some(x) => x,
    };
    let v = ReceiptView { receipt_id: id, priority: pr };
    proof {
        lemma_auto_spec_u64_to_from_le_bytes();
        assert(data@.subrange(pos as int, p2 as int) =~= data@.subrange(pos as int, pa as int)
            + data@.subrange(pa as int, p2 as int));
        assert(data@.subrange(pos as int, p2 as int) == enc_receipt(v@));
    }
    Some((v, p2))
}

pub open spec fn enc_receipt_elems(s: Seq<SpecReceiptView>) -> Seq<u8>
    decreases s.len(),
{
    if s.len() == 0 {
        Seq::empty()
    } else {
        enc_receipt(s[0]) + enc_receipt_elems(s.skip(1))
    }
}

pub open spec fn enc_receipt_vec(s: Seq<SpecReceiptView>) -> Seq<u8>
    recommends
        s.len() < u32_bound(),
{
    enc_u32(s.len() as u32) + enc_receipt_elems(s)
}

pub proof fn lemma_receipt_elems_concat(a: Seq<SpecReceiptView>, b: Seq<SpecReceiptView>)
    ensures
        enc_receipt_elems(a + b) == enc_receipt_elems(a) + enc_receipt_elems(b),
    decreases a.len(),
{
    if a.len() == 0 {
        assert(a + b =~= b);
        assert(enc_receipt_elems(a) + enc_receipt_elems(b) =~= enc_receipt_elems(b));
    } else {
        assert((a + b).skip(1) =~= a.skip(1) + b);
        lemma_receipt_elems_concat(a.skip(1), b);
        assert(enc_receipt_elems(a + b) =~= enc_receipt_elems(a) + enc_receipt_elems(b));
    }
}

pub proof fn lemma_receipt_elems_push(s: Seq<SpecReceiptView>, x: SpecReceiptView)
    ensures
        enc_receipt_elems(s.push(x)) == enc_receipt_elems(s) + enc_receipt(x),
{
    assert(s.push(x) =~= s + seq![x]);
    lemma_receipt_elems_concat(s, seq![x]);
    let s1 = seq![x];
    assert(enc_receipt_elems(s1) == enc_receipt(s1[0]) + enc_receipt_elems(s1.skip(1)));
    assert(s1.skip(1) =~= Seq::<SpecReceiptView>::empty());
    assert(enc_receipt_elems(Seq::<SpecReceiptView>::empty()) == Seq::<u8>::empty());
    assert(enc_receipt_elems(s1) =~= enc_receipt(x));
}

proof fn lemma_target_receipt_prefix(
    data: Seq<u8>,
    pos: int,
    p0: int,
    p: int,
    w: Seq<SpecReceiptView>,
    out: Seq<SpecReceiptView>,
    j: int,
)
    requires
        0 <= pos,
        pos + 4 == p0,
        p0 <= p <= data.len(),
        w.len() < u32_bound(),
        prefix_of(enc_receipt_vec(w), data.skip(pos)),
        out.len() == j,
        j < w.len(),
        out == w.take(j),
        data.subrange(p0, p) == enc_receipt_elems(out),
    ensures
        prefix_of(enc_receipt(w[j]), data.skip(p)),
{
    lemma_auto_spec_u32_to_from_le_bytes();
    lemma_prefix_concat(enc_u32(w.len() as u32), enc_receipt_elems(w), data.skip(pos));
    lemma_skip_skip(data, pos, 4);
    assert(prefix_of(enc_receipt_elems(w), data.skip(p0)));
    assert(w =~= w.take(j) + w.skip(j));
    lemma_receipt_elems_concat(w.take(j), w.skip(j));
    assert(enc_receipt_elems(w) == enc_receipt_elems(out) + enc_receipt_elems(w.skip(j)));
    lemma_prefix_concat(enc_receipt_elems(out), enc_receipt_elems(w.skip(j)), data.skip(p0));
    lemma_skip_skip(data, p0, p - p0);
    assert(enc_receipt_elems(out).len() == p - p0);
    assert(prefix_of(enc_receipt_elems(w.skip(j)), data.skip(p)));
    assert(w.skip(j).len() > 0);
    assert(enc_receipt_elems(w.skip(j)) == enc_receipt(w.skip(j)[0]) + enc_receipt_elems(
        w.skip(j).skip(1),
    ));
    assert(w.skip(j)[0] == w[j]);
    lemma_prefix_concat(enc_receipt(w[j]), enc_receipt_elems(w.skip(j).skip(1)), data.skip(p));
}

pub fn write_receipt_vec(out: &mut Vec<u8>, v: &Vec<ReceiptView>)
    requires
        v@.len() < u32_bound(),
    ensures
        final(out)@ == old(out)@ + enc_receipt_vec(crate::primitives::view_receipts(v@)),
{
    proof {
        lemma_auto_spec_u32_to_from_le_bytes();
    }
    let ghost vw = crate::primitives::view_receipts(v@);
    write_u32(out, v.len() as u32);
    let mut i: usize = 0;
    while i < v.len()
        invariant
            i <= v@.len(),
            vw == crate::primitives::view_receipts(v@),
            vw.len() == v@.len(),
            vw.len() < u32_bound(),
            forall|k: int| 0 <= k < vw.len() ==> vw[k] == v@[k]@,
            out@ == old(out)@ + enc_u32(vw.len() as u32) + enc_receipt_elems(vw.take(i as int)),
        decreases v@.len() - i,
    {
        write_receipt(out, &v[i]);
        proof {
            assert(vw.take(i + 1) =~= vw.take(i as int).push(vw[i as int]));
            lemma_receipt_elems_push(vw.take(i as int), vw[i as int]);
            assert(out@ =~= old(out)@ + enc_u32(vw.len() as u32) + enc_receipt_elems(
                vw.take(i + 1),
            ));
        }
        i = i + 1;
    }
    proof {
        assert(vw.take(vw.len() as int) =~= vw);
        assert(out@ =~= old(out)@ + enc_receipt_vec(vw));
    }
}

pub fn read_receipt_vec(data: &Vec<u8>, pos: usize) -> (r: Option<(Vec<ReceiptView>, usize)>)
    requires
        pos <= data@.len(),
    ensures
        match r {
            Some((v, p2)) => {
                &&& pos <= p2 <= data@.len()
                &&& v@.len() < u32_bound()
                &&& data@.subrange(pos as int, p2 as int) == enc_receipt_vec(
                    crate::primitives::view_receipts(v@),
                )
            },
            None => true,
        },
        forall|w: Seq<SpecReceiptView>|
            w.len() < u32_bound() && prefix_of(
                #[trigger] enc_receipt_vec(w),
                data@.skip(pos as int),
            ) ==> {
                &&& r is Some
                &&& crate::primitives::view_receipts(r->Some_0.0@) == w
                &&& r->Some_0.1 == pos + enc_receipt_vec(w).len()
            },
{
    proof {
        lemma_auto_spec_u32_to_from_le_bytes();
    }
    let (n32, p0) = match read_u32(data, pos) {
        None => {
            proof {
                assert forall|w: Seq<SpecReceiptView>|
                    w.len() < u32_bound() && prefix_of(
                        #[trigger] enc_receipt_vec(w),
                        data@.skip(pos as int),
                    ) implies false by {
                    lemma_prefix_concat(
                        enc_u32(w.len() as u32),
                        enc_receipt_elems(w),
                        data@.skip(pos as int),
                    );
                }
            }
            return None;
        },
        Some(x) => x,
    };
    proof {
        assert forall|w: Seq<SpecReceiptView>|
            w.len() < u32_bound() && prefix_of(
                #[trigger] enc_receipt_vec(w),
                data@.skip(pos as int),
            ) implies w.len() as u32 == n32 by {
            lemma_prefix_concat(
                enc_u32(w.len() as u32),
                enc_receipt_elems(w),
                data@.skip(pos as int),
            );
        }
    }
    let n = n32 as usize;
    let mut out: Vec<ReceiptView> = Vec::new();
    let mut p = p0;
    let mut j: usize = 0;
    while j < n
        invariant
            pos + 4 == p0,
            p0 <= p <= data@.len(),
            j <= n,
            n == n32 as usize,
            out@.len() == j,
            data@.subrange(pos as int, p0 as int) == enc_u32(n32),
            data@.subrange(p0 as int, p as int) == enc_receipt_elems(
                crate::primitives::view_receipts(out@),
            ),
            forall|w: Seq<SpecReceiptView>|
                w.len() < u32_bound() && prefix_of(
                    #[trigger] enc_receipt_vec(w),
                    data@.skip(pos as int),
                ) ==> w.len() == n && crate::primitives::view_receipts(out@) == w.take(j as int),
        decreases n - j,
    {
        let ghost out_old = crate::primitives::view_receipts(out@);
        let ghost p_old = p as int;
        match read_receipt(data, p) {
            None => {
                proof {
                    assert forall|w: Seq<SpecReceiptView>|
                        w.len() < u32_bound() && prefix_of(
                            #[trigger] enc_receipt_vec(w),
                            data@.skip(pos as int),
                        ) implies false by {
                        lemma_target_receipt_prefix(
                            data@,
                            pos as int,
                            p0 as int,
                            p_old,
                            w,
                            out_old,
                            j as int,
                        );
                    }
                }
                return None;
            },
            Some((h, p2)) => {
                out.push(h);
                proof {
                    lemma_receipt_elems_push(out_old, h@);
                    assert(crate::primitives::view_receipts(out@) =~= out_old.push(h@));
                    assert(data@.subrange(p0 as int, p2 as int) =~= data@.subrange(
                        p0 as int,
                        p_old,
                    ) + data@.subrange(p_old, p2 as int));
                    assert forall|w: Seq<SpecReceiptView>|
                        w.len() < u32_bound() && prefix_of(
                            #[trigger] enc_receipt_vec(w),
                            data@.skip(pos as int),
                        ) implies crate::primitives::view_receipts(out@) == w.take(j + 1) by {
                        lemma_target_receipt_prefix(
                            data@,
                            pos as int,
                            p0 as int,
                            p_old,
                            w,
                            out_old,
                            j as int,
                        );
                        assert(w.take(j + 1) =~= w.take(j as int).push(w[j as int]));
                    }
                }
                p = p2;
                j = j + 1;
            },
        }
    }
    proof {
        let outw = crate::primitives::view_receipts(out@);
        assert(data@.subrange(pos as int, p as int) =~= data@.subrange(pos as int, p0 as int)
            + data@.subrange(p0 as int, p as int));
        assert(outw.len() as u32 == n32);
        assert(data@.subrange(pos as int, p as int) == enc_receipt_vec(outw));
        assert forall|w: Seq<SpecReceiptView>|
            w.len() < u32_bound() && prefix_of(
                #[trigger] enc_receipt_vec(w),
                data@.skip(pos as int),
            ) implies outw == w && p == pos + enc_receipt_vec(w).len() by {
            assert(w.take(w.len() as int) =~= w);
            assert(enc_receipt_elems(w) == enc_receipt_elems(outw));
            assert(enc_receipt_vec(w).len() == 4 + enc_receipt_elems(w).len());
            assert(p - p0 == enc_receipt_elems(outw).len());
        }
    }
    Some((out, p))
}

// ---------------------------------------------------------------------------
// Transaction views, three generations: the oldest has the hash and the two
// accounts; a priority fee was added next; the nonce is newest.
// ---------------------------------------------------------------------------

pub open spec fn enc_tx0(t: SpecTransactionView) -> Seq<u8> {
    hash_bytes(t.hash) + enc_account(t.signer_id) + enc_account(t.receiver_id)
}

pub open spec fn tx0_ok(t: SpecTransactionView) -> bool {
    &&& t.signer_id.len() < u32_bound()
    &&& t.receiver_id.len() < u32_bound()
    &&& t.priority_fee == 0
    &&& t.nonce == 0
}

pub open spec fn enc_tx1(t: SpecTransactionView) -> Seq<u8> {
    enc_tx0(t) + enc_u64(t.priority_fee)
}

pub open spec fn tx1_ok(t: SpecTransactionView) -> bool {
    &&& t.signer_id.len() < u32_bound()
    &&& t.receiver_id.len() < u32_bound()
    &&& t.nonce == 0
}

pub open spec fn enc_tx2(t: SpecTransactionView) -> Seq<u8> {
    enc_tx0(t) + enc_u64(t.priority_fee) + enc_u64(t.nonce)
}

pub open spec fn tx2_ok(t: SpecTransactionView) -> bool {
    &&& t.signer_id.len() < u32_bound()
    &&& t.receiver_id.len() < u32_bound()
}

pub fn write_tx0(out: &mut Vec<u8>, t: &SignedTransactionView)
    requires
        tx0_ok(t@),
    ensures
        final(out)@ == old(out)@ + enc_tx0(t@),
{
    write_hash(out, &t.hash);
    write_account(out, &t.signer_id);
    write_account(out, &t.receiver_id);
    proof {
        assert(out@ =~= old(out)@ + enc_tx0(t@));
    }
}

pub fn write_tx1(out: &mut Vec<u8>, t: &SignedTransactionView)
    requires
        tx1_ok(t@),
    ensures
        final(out)@ == old(out)@ + enc_tx1(t@),
{
    write_hash(out, &t.hash);
    write_account(out, &t.signer_id);
    write_account(out, &t.receiver_id);
    write_u64(out, t.priority_fee);
    proof {
        assert(out@ =~= old(out)@ + enc_tx1(t@));
    }
}

pub fn write_tx2(out: &mut Vec<u8>, t: &SignedTransactionView)
    requires
        tx2_ok(t@),
    ensures
        final(out)@ == old(out)@ + enc_tx2(t@),
{
    write_hash(out, &t.hash);
    write_account(out, &t.signer_id);
    write_account(out, &t.receiver_id);
    write_u64(out, t.priority_fee);
    write_u64(out, t.nonce);
    proof {
        assert(out@ =~= old(out)@ + enc_tx2(t@));
    }
}

/// Reads the oldest transaction shape: hash, signer, receiver. The added
/// fields of the current shape are zero.
pub fn read_tx0(data: &Vec<u8>, pos: usize) -> (r: Option<(SignedTransactionView, usize)>)
    requires
        pos <= data@.len(),
    ensures
        match r {
            Some((v, p2)) => {
                &&& pos <= p2 <= data@.len()
                &&& tx0_ok(v@)
                &&& data@.subrange(pos as int, p2 as int) == enc_tx0(v@)
            },
            None => true,
        },
        forall|w: SpecTransactionView|
            tx0_ok(w) && prefix_of(#[trigger] enc_tx0(w), data@.skip(pos as int)) ==> {
                &&& r is Some
                &&& r->Some_0.0@ == w
                &&& r->Some_0.1 == pos + enc_tx0(w).len()
            },
{
    proof {
        assert forall|w: SpecTransactionView|
            tx0_ok(w) && prefix_of(#[trigger] enc_tx0(w), data@.skip(pos as int)) implies prefix_of(
            hash_bytes(w.hash),
            data@.skip(pos as int),
        ) by {
            lemma_prefix_concat(
                hash_bytes(w.hash) + enc_account(w.signer_id),
                enc_account(w.receiver_id),
                data@.skip(pos as int),
            );
            lemma_prefix_concat(hash_bytes(w.hash), enc_account(w.signer_id), data@.skip(pos as int));
        }
    }
    let (h, pa) = match read_hash(data, pos) {
        None => {
            return None;
        },
        Some(x) => x,
    };
    proof {
        crate::hexutil::lemma_hash_bytes_len(h);
        assert forall|w: SpecTransactionView|
            tx0_ok(w) && prefix_of(#[trigger] enc_tx0(w), data@.skip(pos as int)) implies w.hash
            == h && prefix_of(enc_account(w.signer_id), data@.skip(pa as int)) by {
            lemma_prefix_concat(
                hash_bytes(w.hash) + enc_account(w.signer_id),
                enc_account(w.receiver_id),
                data@.skip(pos as int),
            );
            lemma_prefix_concat(hash_bytes(w.hash), enc_account(w.signer_id), data@.skip(pos as int));
            crate::hexutil::lemma_hash_bytes_len(w.hash);
            lemma_skip_skip(data@, pos as int, 32);
        }
    }
    let (signer, pb) = match read_account(data, pa) {
        None => {
            return None;
        },
        Some(x) => x,
    };
    proof {
        assert forall|w: SpecTransactionView|
            tx0_ok(w) && prefix_of(#[trigger] enc_tx0(w), data@.skip(pos as int)) implies w.signer_id
            == signer@ && prefix_of(enc_account(w.receiver_id), data@.skip(pb as int)) by {
            lemma_prefix_concat(
                hash_bytes(w.hash) + enc_account(w.signer_id),
                enc_account(w.receiver_id),
                data@.skip(pos as int),
            );
            lemma_prefix_concat(hash_bytes(w.hash), enc_account(w.signer_id), data@.skip(pos as int));
            crate::hexutil::lemma_hash_bytes_len(w.hash);
            lemma_skip_skip(data@, pos as int, 32);
            assert(prefix_of(enc_account(w.signer_id), data@.skip(pa as int)));
            assert(signer@ == w.signer_id);
            assert((hash_bytes(w.hash) + enc_account(w.signer_id)).len() == pb - pos);
            lemma_skip_skip(data@, pos as int, pb - pos);
        }
    }
    let (receiver, p2) = match read_account(data, pb) {
        None => {
            return None;
        },
        Some(x) => x,
    };
    let v = SignedTransactionView {
        hash: h,
        signer_id: signer,
        receiver_id: receiver,
        priority_fee: 0,
        nonce: 0,
    };
    proof {
        assert(data@.subrange(pos as int, p2 as int) =~= data@.subrange(pos as int, pa as int)
            + data@.subrange(pa as int, pb as int) + data@.subrange(pb as int, p2 as int));
        assert(data@.subrange(pos as int, p2 as int) == enc_tx0(v@));
    }
    Some((v, p2))
}

/// Reads the middle transaction shape: the oldest plus the priority fee.
pub fn read_tx1(data: &Vec<u8>, pos: usize) -> (r: Option<(SignedTransactionView, usize)>)
    requires
        pos <= data@.len(),
    ensures
        match r {
            Some((v, p2)) => {
                &&& pos <= p2 <= data@.len()
                &&& tx1_ok(v@)
                &&& data@.subrange(pos as int, p2 as int) == enc_tx1(v@)
            },
            None => true,
        },
        forall|w: SpecTransactionView|
            tx1_ok(w) && prefix_of(#[trigger] enc_tx1(w), data@.skip(pos as int)) ==> {
                &&& r is Some
                &&& r->Some_0.0@ == w
                &&& r->Some_0.1 == pos + enc_tx1(w).len()
            },
{
    proof {
        assert forall|w: SpecTransactionView|
            tx1_ok(w) && prefix_of(#[trigger] enc_tx1(w), data@.skip(pos as int)) implies prefix_of(
            enc_tx0(tx_zeroed(w)),
            data@.skip(pos as int),
        ) && tx0_ok(tx_zeroed(w)) by {
            lemma_prefix_concat(enc_tx0(w), enc_u64(w.priority_fee), data@.skip(pos as int));
            assert(enc_tx0(tx_zeroed(w)) == enc_tx0(w));
        }
    }
    let (t0, pa) = match read_tx0(data, pos) {
        None => {
            return None;
        },
        Some(x) => x,
    };
    proof {
        assert forall|w: SpecTransactionView|
            tx1_ok(w) && prefix_of(#[trigger] enc_tx1(w), data@.skip(pos as int)) implies
            tx_zeroed(w) == t0@ && prefix_of(enc_u64(w.priority_fee), data@.skip(pa as int)) by {
            lemma_prefix_concat(enc_tx0(w), enc_u64(w.priority_fee), data@.skip(pos as int));
            assert(enc_tx0(tx_zeroed(w)) == enc_tx0(w));
            lemma_skip_skip(data@, pos as int, enc_tx0(w).len() as int);
            assert(enc_tx0(w).len() == pa - pos);
        }
    }
    let (fee, p2) = match read_u64(data, pa) {
        None => {
            return None;
        },
        Some(x) => x,
    };
    let v = SignedTransactionView { priority_fee: fee, ..t0 };
    proof {
        assert(data@.subrange(pos as int, p2 as int) =~= data@.subrange(pos as int, pa as int)
            + data@.subrange(pa as int, p2 as int));
        assert(enc_tx0(v@) == enc_tx0(t0@));
        assert(data@.subrange(pos as int, p2 as int) == enc_tx1(v@));
    }
    Some((v, p2))
}

/// Reads the current transaction shape: the middle plus the nonce.
pub fn read_tx2(data: &Vec<u8>, pos: usize) -> (r: Option<(SignedTransactionView, usize)>)
    requires
        pos <= data@.len(),
    ensures
        match r {
            Some((v, p2)) => {
                &&& pos <= p2 <= data@.len()
                &&& tx2_ok(v@)
                &&& data@.subrange(pos as int, p2 as int) == enc_tx2(v@)
            },
            None => true,
        },
        forall|w: SpecTransactionView|
            tx2_ok(w) && prefix_of(#[trigger] enc_tx2(w), data@.skip(pos as int)) ==> {
                &&& r is Some
                &&& r->Some_0.0@ == w
                &&& r->Some_0.1 == pos + enc_tx2(w).len()
            },
{
    proof {
        assert forall|w: SpecTransactionView|
            tx2_ok(w) && prefix_of(#[trigger] enc_tx2(w), data@.skip(pos as int)) implies prefix_of(
            enc_tx1(tx_unnonced(w)),
            data@.skip(pos as int),
        ) && tx1_ok(tx_unnonced(w)) by {
            lemma_prefix_concat(enc_tx0(w) + enc_u64(w.priority_fee), enc_u64(w.nonce), data@.skip(pos as int));
            assert(enc_tx1(tx_unnonced(w)) == enc_tx0(w) + enc_u64(w.priority_fee));
        }
    }
    let (t1, pa) = match read_tx1(data, pos) {
        None => {
            return None;
        },
        Some(x) => x,
    };
    proof {
        assert forall|w: SpecTransactionView|
            tx2_ok(w) && prefix_of(#[trigger] enc_tx2(w), data@.skip(pos as int)) implies
            tx_unnonced(w) == t1@ && prefix_of(enc_u64(w.nonce), data@.skip(pa as int)) by {
            lemma_prefix_concat(enc_tx0(w) + enc_u64(w.priority_fee), enc_u64(w.nonce), data@.skip(pos as int));
            assert(enc_tx1(tx_unnonced(w)) == enc_tx0(w) + enc_u64(w.priority_fee));
            lemma_skip_skip(data@, pos as int, enc_tx1(tx_unnonced(w)).len() as int);
            assert(enc_tx1(tx_unnonced(w)).len() == pa - pos);
        }
    }
    let (nonce, p2) = match read_u64(data, pa) {
        None => {
            return None;
        },
        Some(x) => x,
    };
    let v = SignedTransactionView { nonce, ..t1 };
    proof {
        assert(data@.subrange(pos as int, p2 as int) =~= data@.subrange(pos as int, pa as int)
            + data@.subrange(pa as int, p2 as int));
        assert(enc_tx1(v@) == enc_tx1(t1@));
        assert(data@.subrange(pos as int, p2 as int) == enc_tx2(v@));
    }
    Some((v, p2))
}

/// The same view with the fields the oldest shape lacks set to zero.
pub open spec fn tx_zeroed(t: SpecTransactionView) -> SpecTransactionView {
    SpecTransactionView { priority_fee: 0, nonce: 0, ..t }
}

// ---------------------------------------------------------------------------
// Execution outcomes with id, two generations: the older lacks the burnt
// gas and tokens counters.
// ---------------------------------------------------------------------------

pub open spec fn enc_ow0(o: SpecOutcomeWithId) -> Seq<u8> {
    hash_bytes(o.id) + enc_status(o.outcome.status) + enc_hash_vec(o.outcome.receipt_ids)
}

pub open spec fn ow0_ok(o: SpecOutcomeWithId) -> bool {
    &&& status_ok(o.outcome.status)
    &&& o.outcome.receipt_ids.len() < u32_bound()
    &&& o.outcome.gas_burnt == 0
    &&& o.outcome.tokens_burnt == 0
}

pub open spec fn enc_ow2(o: SpecOutcomeWithId) -> Seq<u8> {
    enc_ow0(ow_zeroed(o)) + enc_u64(o.outcome.gas_burnt) + enc_u64(o.outcome.tokens_burnt)
}

pub open spec fn ow2_ok(o: SpecOutcomeWithId) -> bool {
    &&& status_ok(o.outcome.status)
    &&& o.outcome.receipt_ids.len() < u32_bound()
}

/// The same outcome with the counters the older shape lacks set to zero.
pub open spec fn ow_zeroed(o: SpecOutcomeWithId) -> SpecOutcomeWithId {
    SpecOutcomeWithId {
        id: o.id,
        outcome: crate::primitives::SpecOutcomeView { gas_burnt: 0, tokens_burnt: 0, ..o.outcome },
    }
}

pub fn write_ow0(out: &mut Vec<u8>, o: &ExecutionOutcomeWithIdView)
    requires
        ow0_ok(o@),
    ensures
        final(out)@ == old(out)@ + enc_ow0(o@),
{
    write_hash(out, &o.id);
    write_status(out, &o.outcome.status);
    write_hash_vec(out, &o.outcome.receipt_ids);
    proof {
        assert(out@ =~= old(out)@ + enc_ow0(o@));
    }
}

pub fn write_ow2(out: &mut Vec<u8>, o: &ExecutionOutcomeWithIdView)
    requires
        ow2_ok(o@),
    ensures
        final(out)@ == old(out)@ + enc_ow2(o@),
{
    write_hash(out, &o.id);
    write_status(out, &o.outcome.status);
    write_hash_vec(out, &o.outcome.receipt_ids);
    write_u64(out, o.outcome.gas_burnt);
    write_u64(out, o.outcome.tokens_burnt);
    proof {
        assert(enc_ow0(ow_zeroed(o@)) == hash_bytes(o@.id) + enc_status(o@.outcome.status)
            + enc_hash_vec(o@.outcome.receipt_ids));
        assert(out@ =~= old(out)@ + enc_ow2(o@));
    }
}

/// Reads the older outcome shape; the counters of the current shape are
/// zero.
pub fn read_ow0(data: &Vec<u8>, pos: usize) -> (r: Option<(ExecutionOutcomeWithIdView, usize)>)
    requires
        pos <= data@.len(),
    ensures
        match r {
            Some((v, p2)) => {
                &&& pos <= p2 <= data@.len()
                &&& ow0_ok(v@)
                &&& data@.subrange(pos as int, p2 as int) == enc_ow0(v@)
            },
            None => true,
        },
        forall|w: SpecOutcomeWithId|
            ow0_ok(w) && prefix_of(#[trigger] enc_ow0(w), data@.skip(pos as int)) ==> {
                &&& r is Some
                &&& r->Some_0.0@ == w
                &&& r->Some_0.1 == pos + enc_ow0(w).len()
            },
{
    proof {
        assert forall|w: SpecOutcomeWithId|
            ow0_ok(w) && prefix_of(#[trigger] enc_ow0(w), data@.skip(pos as int)) implies prefix_of(
            hash_bytes(w.id),
            data@.skip(pos as int),
        ) by {
            lemma_prefix_concat(
                hash_bytes(w.id) + enc_status(w.outcome.status),
                enc_hash_vec(w.outcome.receipt_ids),
                data@.skip(pos as int),
            );
            lemma_prefix_concat(
                hash_bytes(w.id),
                enc_status(w.outcome.status),
                data@.skip(pos as int),
            );
        }
    }
    let (id, pa) = match read_hash(data, pos) {
        None => {
            return None;
        },
        Some(x) => x,
    };
    proof {
        crate::hexutil::lemma_hash_bytes_len(id);
        assert forall|w: SpecOutcomeWithId|
            ow0_ok(w) && prefix_of(#[trigger] enc_ow0(w), data@.skip(pos as int)) implies w.id == id
            && prefix_of(enc_status(w.outcome.status), data@.skip(pa as int)) by {
            lemma_prefix_concat(
                hash_bytes(w.id) + enc_status(w.outcome.status),
                enc_hash_vec(w.outcome.receipt_ids),
                data@.skip(pos as int),
            );
            lemma_prefix_concat(
                hash_bytes(w.id),
                enc_status(w.outcome.status),
                data@.skip(pos as int),
            );
            crate::hexutil::lemma_hash_bytes_len(w.id);
            lemma_skip_skip(data@, pos as int, 32);
        }
    }
    let (status, pb) = match read_status(data, pa) {
        None => {
            return None;
        },
        Some(x) => x,
    };
    proof {
        assert forall|w: SpecOutcomeWithId|
            ow0_ok(w) && prefix_of(#[trigger] enc_ow0(w), data@.skip(pos as int)) implies
            w.outcome.status == status@ && prefix_of(
            enc_hash_vec(w.outcome.receipt_ids),
            data@.skip(pb as int),
        ) by {
            lemma_prefix_concat(
                hash_bytes(w.id) + enc_status(w.outcome.status),
                enc_hash_vec(w.outcome.receipt_ids),
                data@.skip(pos as int),
            );
            lemma_prefix_concat(
                hash_bytes(w.id),
                enc_status(w.outcome.status),
                data@.skip(pos as int),
            );
            crate::hexutil::lemma_hash_bytes_len(w.id);
            lemma_skip_skip(data@, pos as int, 32);
            assert(prefix_of(enc_status(w.outcome.status), data@.skip(pa as int)));
            assert(status@ == w.outcome.status);
            assert((hash_bytes(w.id) + enc_status(w.outcome.status)).len() == pb - pos);
            lemma_skip_skip(data@, pos as int, pb - pos);
        }
    }
    let (ids, p2) = match read_hash_vec(data, pb) {
        None => {
            return None;
        },
        Some(x) => x,
    };
    let v = ExecutionOutcomeWithIdView {
        id,
        outcome: ExecutionOutcomeView { status, receipt_ids: ids, gas_burnt: 0, tokens_burnt: 0 },
    };
    proof {
        assert(data@.subrange(pos as int, p2 as int) =~= data@.subrange(pos as int, pa as int)
            + data@.subrange(pa as int, pb as int) + data@.subrange(pb as int, p2 as int));
        assert(data@.subrange(pos as int, p2 as int) == enc_ow0(v@));
    }
    Some((v, p2))
}

/// Reads the current outcome shape: the older plus the two counters.
pub fn read_ow2(data: &Vec<u8>, pos: usize) -> (r: Option<(ExecutionOutcomeWithIdView, usize)>)
    requires
        pos <= data@.len(),
    ensures
        match r {
            Some((v, p2)) => {
                &&& pos <= p2 <= data@.len()
                &&& ow2_ok(v@)
                &&& data@.subrange(pos as int, p2 as int) == enc_ow2(v@)
            },
            None => true,
        },
        forall|w: SpecOutcomeWithId|
            ow2_ok(w) && prefix_of(#[trigger] enc_ow2(w), data@.skip(pos as int)) ==> {
                &&& r is Some
                &&& r->Some_0.0@ == w
                &&& r->Some_0.1 == pos + enc_ow2(w).len()
            },
{
    proof {
        assert forall|w: SpecOutcomeWithId|
            ow2_ok(w) && prefix_of(#[trigger] enc_ow2(w), data@.skip(pos as int)) implies prefix_of(
            enc_ow0(ow_zeroed(w)),
            data@.skip(pos as int),
        ) && ow0_ok(ow_zeroed(w)) by {
            lemma_prefix_concat(
                enc_ow0(ow_zeroed(w)) + enc_u64(w.outcome.gas_burnt),
                enc_u64(w.outcome.tokens_burnt),
                data@.skip(pos as int),
            );
            lemma_prefix_concat(
                enc_ow0(ow_zeroed(w)),
                enc_u64(w.outcome.gas_burnt),
                data@.skip(pos as int),
            );
        }
    }
    let (o0, pa) = match read_ow0(data, pos) {
        None => {
            return None;
        },
        Some(x) => x,
    };
    proof {
        assert forall|w: SpecOutcomeWithId|
            ow2_ok(w) && prefix_of(#[trigger] enc_ow2(w), data@.skip(pos as int)) implies ow_zeroed(
            w,
        ) == o0@ && prefix_of(enc_u64(w.outcome.gas_burnt), data@.skip(pa as int)) && prefix_of(
            enc_u64(w.outcome.tokens_burnt),
            data@.skip((pa + 8) as int),
        ) && pa + 16 <= data@.len() by {
            lemma_auto_spec_u64_to_from_le_bytes();
            lemma_prefix_concat(
                enc_ow0(ow_zeroed(w)) + enc_u64(w.outcome.gas_burnt),
                enc_u64(w.outcome.tokens_burnt),
                data@.skip(pos as int),
            );
            lemma_prefix_concat(
                enc_ow0(ow_zeroed(w)),
                enc_u64(w.outcome.gas_burnt),
                data@.skip(pos as int),
            );
            assert(enc_ow0(ow_zeroed(w)).len() == pa - pos);
            lemma_skip_skip(data@, pos as int, pa - pos);
            assert((enc_ow0(ow_zeroed(w)) + enc_u64(w.outcome.gas_burnt)).len() == pa + 8 - pos);
            lemma_skip_skip(data@, pos as int, pa + 8 - pos);
        }
    }
    let (gas, pb) = match read_u64(data, pa) {
        None => {
            proof {
                assert forall|w: SpecOutcomeWithId|
                    ow2_ok(w) && prefix_of(#[trigger] enc_ow2(w), data@.skip(pos as int))
                        implies false by {
                    assert(prefix_of(enc_u64(w.outcome.gas_burnt), data@.skip(pa as int)));
                }
            }
            return None;
        },
        Some(x) => x,
    };
    let (tokens, p2) = match read_u64(data, pb) {
        None => {
            proof {
                lemma_auto_spec_u64_to_from_le_bytes();
                assert(pb == pa + 8);
                assert forall|w: SpecOutcomeWithId|
                    ow2_ok(w) && prefix_of(#[trigger] enc_ow2(w), data@.skip(pos as int))
                        implies false by {
                    assert(prefix_of(enc_u64(w.outcome.tokens_burnt), data@.skip(pb as int)));
                }
            }
            return None;
        },
        Some(x) => x,
    };
    let v = ExecutionOutcomeWithIdView {
        id: o0.id,
        outcome: ExecutionOutcomeView {
            status: o0.outcome.status,
            receipt_ids: o0.outcome.receipt_ids,
            gas_burnt: gas,
            tokens_burnt: tokens,
        },
    };
    proof {
        assert(ow_zeroed(v@) =~= o0@);
        assert(data@.subrange(pos as int, p2 as int) =~= data@.subrange(pos as int, pa as int)
            + data@.subrange(pa as int, pb as int) + data@.subrange(pb as int, p2 as int));
        assert(data@.subrange(pos as int, p2 as int) == enc_ow2(v@));
        assert forall|w: SpecOutcomeWithId|
            ow2_ok(w) && prefix_of(#[trigger] enc_ow2(w), data@.skip(pos as int)) implies v@ == w
            && p2 == pos + enc_ow2(w).len() by {
            lemma_auto_spec_u64_to_from_le_bytes();
            assert(o0@ == ow_zeroed(w));
            assert(gas == w.outcome.gas_burnt);
            assert(pb == pa + 8);
            assert(tokens == w.outcome.tokens_burnt);
            assert(v@ =~= w);
            assert(enc_ow0(ow_zeroed(w)).len() == pa - pos);
        }
    }
    Some((v, p2))
}

// ---------------------------------------------------------------------------
// Sequences of outcomes, in either generation.
// ---------------------------------------------------------------------------

pub open spec fn enc_ow0_elems(s: Seq<SpecOutcomeWithId>) -> Seq<u8>
    decreases s.len(),
{
    if s.len() == 0 {
        Seq::empty()
    } else {
        enc_ow0(s[0]) + enc_ow0_elems(s.skip(1))
    }
}

pub open spec fn enc_ow0_vec(s: Seq<SpecOutcomeWithId>) -> Seq<u8>
    recommends
        s.len() < u32_bound(),
{
    enc_u32(s.len() as u32) + enc_ow0_elems(s)
}

pub open spec fn ow0_all_ok(s: Seq<SpecOutcomeWithId>) -> bool {
    forall|i: int| 0 <= i < s.len() ==> ow0_ok(#[trigger] s[i])
}

pub open spec fn enc_ow2_elems(s: Seq<SpecOutcomeWithId>) -> Seq<u8>
    decreases s.len(),
{
    if s.len() == 0 {
        Seq::empty()
    } else {
        enc_ow2(s[0]) + enc_ow2_elems(s.skip(1))
    }
}

pub open spec fn enc_ow2_vec(s: Seq<SpecOutcomeWithId>) -> Seq<u8>
    recommends
        s.len() < u32_bound(),
{
    enc_u32(s.len() as u32) + enc_ow2_elems(s)
}

pub open spec fn ow2_all_ok(s: Seq<SpecOutcomeWithId>) -> bool {
    forall|i: int| 0 <= i < s.len() ==> ow2_ok(#[trigger] s[i])
}

pub proof fn lemma_ow0_elems_concat(a: Seq<SpecOutcomeWithId>, b: Seq<SpecOutcomeWithId>)
    ensures
        enc_ow0_elems(a + b) == enc_ow0_elems(a) + enc_ow0_elems(b),
    decreases a.len(),
{
    if a.len() == 0 {
        assert(a + b =~= b);
        assert(enc_ow0_elems(a) + enc_ow0_elems(b) =~= enc_ow0_elems(b));
    } else {
        assert((a + b).skip(1) =~= a.skip(1) + b);
        lemma_ow0_elems_concat(a.skip(1), b);
        assert(enc_ow0_elems(a + b) =~= enc_ow0_elems(a) + enc_ow0_elems(b));
    }
}

pub proof fn lemma_ow0_elems_push(s: Seq<SpecOutcomeWithId>, x: SpecOutcomeWithId)
    ensures
        enc_ow0_elems(s.push(x)) == enc_ow0_elems(s) + enc_ow0(x),
{
    assert(s.push(x) =~= s + seq![x]);
    lemma_ow0_elems_concat(s, seq![x]);
    let s1 = seq![x];
    assert(enc_ow0_elems(s1) == enc_ow0(s1[0]) + enc_ow0_elems(s1.skip(1)));
    assert(s1.skip(1) =~= Seq::<SpecOutcomeWithId>::empty());
    assert(enc_ow0_elems(Seq::<SpecOutcomeWithId>::empty()) == Seq::<u8>::empty());
    assert(enc_ow0_elems(s1) =~= enc_ow0(x));
}

pub proof fn lemma_ow2_elems_concat(a: Seq<SpecOutcomeWithId>, b: Seq<SpecOutcomeWithId>)
    ensures
        enc_ow2_elems(a + b) == enc_ow2_elems(a) + enc_ow2_elems(b),
    decreases a.len(),
{
    if a.len() == 0 {
        assert(a + b =~= b);
        assert(enc_ow2_elems(a) + enc_ow2_elems(b) =~= enc_ow2_elems(b));
    } else {
        assert((a + b).skip(1) =~= a.skip(1) + b);
        lemma_ow2_elems_concat(a.skip(1), b);
        assert(enc_ow2_elems(a + b) =~= enc_ow2_elems(a) + enc_ow2_elems(b));
    }
}

pub proof fn lemma_ow2_elems_push(s: Seq<SpecOutcomeWithId>, x: SpecOutcomeWithId)
    ensures
        enc_ow2_elems(s.push(x)) == enc_ow2_elems(s) + enc_ow2(x),
{
    assert(s.push(x) =~= s + seq![x]);
    lemma_ow2_elems_concat(s, seq![x]);
    let s1 = seq![x];
    assert(enc_ow2_elems(s1) == enc_ow2(s1[0]) + enc_ow2_elems(s1.skip(1)));
    assert(s1.skip(1) =~= Seq::<SpecOutcomeWithId>::empty());
    assert(enc_ow2_elems(Seq::<SpecOutcomeWithId>::empty()) == Seq::<u8>::empty());
    assert(enc_ow2_elems(s1) =~= enc_ow2(x));
}

proof fn lemma_target_ow0_prefix(
    data: Seq<u8>,
    pos: int,
    p0: int,
    p: int,
    w: Seq<SpecOutcomeWithId>,
    out: Seq<SpecOutcomeWithId>,
    j: int,
)
    requires
        0 <= pos,
        pos + 4 == p0,
        p0 <= p <= data.len(),
        w.len() < u32_bound(),
        ow0_all_ok(w),
        prefix_of(enc_ow0_vec(w), data.skip(pos)),
        out.len() == j,
        j < w.len(),
        out == w.take(j),
        data.subrange(p0, p) == enc_ow0_elems(out),
    ensures
        prefix_of(enc_ow0(w[j]), data.skip(p)),
        ow0_ok(w[j]),
{
    lemma_auto_spec_u32_to_from_le_bytes();
    lemma_prefix_concat(enc_u32(w.len() as u32), enc_ow0_elems(w), data.skip(pos));
    lemma_skip_skip(data, pos, 4);
    assert(prefix_of(enc_ow0_elems(w), data.skip(p0)));
    assert(w =~= w.take(j) + w.skip(j));
    lemma_ow0_elems_concat(w.take(j), w.skip(j));
    assert(enc_ow0_elems(w) == enc_ow0_elems(out) + enc_ow0_elems(w.skip(j)));
    lemma_prefix_concat(enc_ow0_elems(out), enc_ow0_elems(w.skip(j)), data.skip(p0));
    lemma_skip_skip(data, p0, p - p0);
    assert(enc_ow0_elems(out).len() == p - p0);
    assert(prefix_of(enc_ow0_elems(w.skip(j)), data.skip(p)));
    assert(w.skip(j).len() > 0);
    assert(enc_ow0_elems(w.skip(j)) == enc_ow0(w.skip(j)[0]) + enc_ow0_elems(w.skip(j).skip(1)));
    assert(w.skip(j)[0] == w[j]);
    lemma_prefix_concat(enc_ow0(w[j]), enc_ow0_elems(w.skip(j).skip(1)), data.skip(p));
}

proof fn lemma_target_ow2_prefix(
    data: Seq<u8>,
    pos: int,
    p0: int,
    p: int,
    w: Seq<SpecOutcomeWithId>,
    out: Seq<SpecOutcomeWithId>,
    j: int,
)
    requires
        0 <= pos,
        pos + 4 == p0,
        p0 <= p <= data.len(),
        w.len() < u32_bound(),
        ow2_all_ok(w),
        prefix_of(enc_ow2_vec(w), data.skip(pos)),
        out.len() == j,
        j < w.len(),
        out == w.take(j),
        data.subrange(p0, p) == enc_ow2_elems(out),
    ensures
        prefix_of(enc_ow2(w[j]), data.skip(p)),
        ow2_ok(w[j]),
{
    lemma_auto_spec_u32_to_from_le_bytes();
    lemma_prefix_concat(enc_u32(w.len() as u32), enc_ow2_elems(w), data.skip(pos));
    lemma_skip_skip(data, pos, 4);
    assert(prefix_of(enc_ow2_elems(w), data.skip(p0)));
    assert(w =~= w.take(j) + w.skip(j));
    lemma_ow2_elems_concat(w.take(j), w.skip(j));
    assert(enc_ow2_elems(w) == enc_ow2_elems(out) + enc_ow2_elems(w.skip(j)));
    lemma_prefix_concat(enc_ow2_elems(out), enc_ow2_elems(w.skip(j)), data.skip(p0));
    lemma_skip_skip(data, p0, p - p0);
    assert(enc_ow2_elems(out).len() == p - p0);
    assert(prefix_of(enc_ow2_elems(w.skip(j)), data.skip(p)));
    assert(w.skip(j).len() > 0);
    assert(enc_ow2_elems(w.skip(j)) == enc_ow2(w.skip(j)[0]) + enc_ow2_elems(w.skip(j).skip(1)));
    assert(w.skip(j)[0] == w[j]);
    lemma_prefix_concat(enc_ow2(w[j]), enc_ow2_elems(w.skip(j).skip(1)), data.skip(p));
}

pub fn write_ow0_vec(out: &mut Vec<u8>, v: &Vec<ExecutionOutcomeWithIdView>)
    requires
        v@.len() < u32_bound(),
        ow0_all_ok(view_outcomes(v@)),
    ensures
        final(out)@ == old(out)@ + enc_ow0_vec(view_outcomes(v@)),
{
    proof {
        lemma_auto_spec_u32_to_from_le_bytes();
    }
    let ghost vw = view_outcomes(v@);
    write_u32(out, v.len() as u32);
    let mut i: usize = 0;
    while i < v.len()
        invariant
            i <= v@.len(),
            vw == view_outcomes(v@),
            vw.len() == v@.len(),
            vw.len() < u32_bound(),
            ow0_all_ok(vw),
            forall|k: int| 0 <= k < vw.len() ==> vw[k] == v@[k]@,
            out@ == old(out)@ + enc_u32(vw.len() as u32) + enc_ow0_elems(vw.take(i as int)),
        decreases v@.len() - i,
    {
        write_ow0(out, &v[i]);
        proof {
            assert(vw.take(i + 1) =~= vw.take(i as int).push(vw[i as int]));
            lemma_ow0_elems_push(vw.take(i as int), vw[i as int]);
            assert(out@ =~= old(out)@ + enc_u32(vw.len() as u32) + enc_ow0_elems(vw.take(i + 1)));
        }
        i = i + 1;
    }
    proof {
        assert(vw.take(vw.len() as int) =~= vw);
        assert(out@ =~= old(out)@ + enc_ow0_vec(vw));
    }
}

pub fn write_ow2_vec(out: &mut Vec<u8>, v: &Vec<ExecutionOutcomeWithIdView>)
    requires
        v@.len() < u32_bound(),
        ow2_all_ok(view_outcomes(v@)),
    ensures
        final(out)@ == old(out)@ + enc_ow2_vec(view_outcomes(v@)),
{
    proof {
        lemma_auto_spec_u32_to_from_le_bytes();
    }
    let ghost vw = view_outcomes(v@);
    write_u32(out, v.len() as u32);
    let mut i: usize = 0;
    while i < v.len()
        invariant
            i <= v@.len(),
            vw == view_outcomes(v@),
            vw.len() == v@.len(),
            vw.len() < u32_bound(),
            ow2_all_ok(vw),
            forall|k: int| 0 <= k < vw.len() ==> vw[k] == v@[k]@,
            out@ == old(out)@ + enc_u32(vw.len() as u32) + enc_ow2_elems(vw.take(i as int)),
        decreases v@.len() - i,
    {
        write_ow2(out, &v[i]);
        proof {
            assert(vw.take(i + 1) =~= vw.take(i as int).push(vw[i as int]));
            lemma_ow2_elems_push(vw.take(i as int), vw[i as int]);
            assert(out@ =~= old(out)@ + enc_u32(vw.len() as u32) + enc_ow2_elems(vw.take(i + 1)));
        }
        i = i + 1;
    }
    proof {
        assert(vw.take(vw.len() as int) =~= vw);
        assert(out@ =~= old(out)@ + enc_ow2_vec(vw));
    }
}

pub fn read_ow0_vec(data: &Vec<u8>, pos: usize) -> (r: Option<
    (Vec<ExecutionOutcomeWithIdView>, usize),
>)
    requires
        pos <= data@.len(),
    ensures
        match r {
            Some((v, p2)) => {
                &&& pos <= p2 <= data@.len()
                &&& v@.len() < u32_bound()
                &&& ow0_all_ok(view_outcomes(v@))
                &&& data@.subrange(pos as int, p2 as int) == enc_ow0_vec(view_outcomes(v@))
            },
            None => true,
        },
        forall|w: Seq<SpecOutcomeWithId>|
            w.len() < u32_bound() && ow0_all_ok(w) && prefix_of(
                #[trigger] enc_ow0_vec(w),
                data@.skip(pos as int),
            ) ==> {
                &&& r is Some
                &&& view_outcomes(r->Some_0.0@) == w
                &&& r->Some_0.1 == pos + enc_ow0_vec(w).len()
            },
{
    proof {
        lemma_auto_spec_u32_to_from_le_bytes();
    }
    let (n32, p0) = match read_u32(data, pos) {
        None => {
            proof {
                assert forall|w: Seq<SpecOutcomeWithId>|
                    w.len() < u32_bound() && ow0_all_ok(w) && prefix_of(
                        #[trigger] enc_ow0_vec(w),
                        data@.skip(pos as int),
                    ) implies false by {
                    lemma_prefix_concat(
                        enc_u32(w.len() as u32),
                        enc_ow0_elems(w),
                        data@.skip(pos as int),
                    );
                }
            }
            return None;
        },
        Some(x) => x,
    };
    proof {
        assert forall|w: Seq<SpecOutcomeWithId>|
            w.len() < u32_bound() && ow0_all_ok(w) && prefix_of(
                #[trigger] enc_ow0_vec(w),
                data@.skip(pos as int),
            ) implies w.len() as u32 == n32 by {
            lemma_prefix_concat(enc_u32(w.len() as u32), enc_ow0_elems(w), data@.skip(pos as int));
        }
    }
    let n = n32 as usize;
    let mut out: Vec<ExecutionOutcomeWithIdView> = Vec::new();
    let mut p = p0;
    let mut j: usize = 0;
    while j < n
        invariant
            pos + 4 == p0,
            p0 <= p <= data@.len(),
            j <= n,
            n == n32 as usize,
            out@.len() == j,
            ow0_all_ok(view_outcomes(out@)),
            data@.subrange(pos as int, p0 as int) == enc_u32(n32),
            data@.subrange(p0 as int, p as int) == enc_ow0_elems(view_outcomes(out@)),
            forall|w: Seq<SpecOutcomeWithId>|
                w.len() < u32_bound() && ow0_all_ok(w) && prefix_of(
                    #[trigger] enc_ow0_vec(w),
                    data@.skip(pos as int),
                ) ==> w.len() == n && view_outcomes(out@) == w.take(j as int),
        decreases n - j,
    {
        let ghost out_old = view_outcomes(out@);
        let ghost p_old = p as int;
        match read_ow0(data, p) {
            None => {
                proof {
                    assert forall|w: Seq<SpecOutcomeWithId>|
                        w.len() < u32_bound() && ow0_all_ok(w) && prefix_of(
                            #[trigger] enc_ow0_vec(w),
                            data@.skip(pos as int),
                        ) implies false by {
                        lemma_target_ow0_prefix(
                            data@,
                            pos as int,
                            p0 as int,
                            p_old,
                            w,
                            out_old,
                            j as int,
                        );
                    }
                }
                return None;
            },
            Some((h, p2)) => {
                out.push(h);
                proof {
                    lemma_ow0_elems_push(out_old, h@);
                    assert(view_outcomes(out@) =~= out_old.push(h@));
                    assert(data@.subrange(p0 as int, p2 as int) =~= data@.subrange(
                        p0 as int,
                        p_old,
                    ) + data@.subrange(p_old, p2 as int));
                    assert forall|w: Seq<SpecOutcomeWithId>|
                        w.len() < u32_bound() && ow0_all_ok(w) && prefix_of(
                            #[trigger] enc_ow0_vec(w),
                            data@.skip(pos as int),
                        ) implies view_outcomes(out@) == w.take(j + 1) by {
                        lemma_target_ow0_prefix(
                            data@,
                            pos as int,
                            p0 as int,
                            p_old,
                            w,
                            out_old,
                            j as int,
                        );
                        assert(w.take(j + 1) =~= w.take(j as int).push(w[j as int]));
                    }
                }
                p = p2;
                j = j + 1;
            },
        }
    }
    proof {
        let outw = view_outcomes(out@);
        assert(data@.subrange(pos as int, p as int) =~= data@.subrange(pos as int, p0 as int)
            + data@.subrange(p0 as int, p as int));
        assert(outw.len() as u32 == n32);
        assert(data@.subrange(pos as int, p as int) == enc_ow0_vec(outw));
        assert forall|w: Seq<SpecOutcomeWithId>|
            w.len() < u32_bound() && ow0_all_ok(w) && prefix_of(
                #[trigger] enc_ow0_vec(w),
                data@.skip(pos as int),
            ) implies outw == w && p == pos + enc_ow0_vec(w).len() by {
            assert(w.take(w.len() as int) =~= w);
            assert(enc_ow0_elems(w) == enc_ow0_elems(outw));
            assert(enc_ow0_vec(w).len() == 4 + enc_ow0_elems(w).len());
            assert(p - p0 == enc_ow0_elems(outw).len());
        }
    }
    Some((out, p))
}

pub fn read_ow2_vec(data: &Vec<u8>, pos: usize) -> (r: Option<
    (Vec<ExecutionOutcomeWithIdView>, usize),
>)
    requires
        pos <= data@.len(),
    ensures
        match r {
            Some((v, p2)) => {
                &&& pos <= p2 <= data@.len()
                &&& v@.len() < u32_bound()
                &&& ow2_all_ok(view_outcomes(v@))
                &&& data@.subrange(pos as int, p2 as int) == enc_ow2_vec(view_outcomes(v@))
            },
            None => true,
        },
        forall|w: Seq<SpecOutcomeWithId>|
            w.len() < u32_bound() && ow2_all_ok(w) && prefix_of(
                #[trigger] enc_ow2_vec(w),
                data@.skip(pos as int),
            ) ==> {
                &&& r is Some
                &&& view_outcomes(r->Some_0.0@) == w
                &&& r->Some_0.1 == pos + enc_ow2_vec(w).len()
            },
{
    proof {
        lemma_auto_spec_u32_to_from_le_bytes();
    }
    let (n32, p0) = match read_u32(data, pos) {
        None => {
            proof {
                assert forall|w: Seq<SpecOutcomeWithId>|
                    w.len() < u32_bound() && ow2_all_ok(w) && prefix_of(
                        #[trigger] enc_ow2_vec(w),
                        data@.skip(pos as int),
                    ) implies false by {
                    lemma_prefix_concat(
                        enc_u32(w.len() as u32),
                        enc_ow2_elems(w),
                        data@.skip(pos as int),
                    );
                }
            }
            return None;
        },
        Some(x) => x,
    };
    proof {
        assert forall|w: Seq<SpecOutcomeWithId>|
            w.len() < u32_bound() && ow2_all_ok(w) && prefix_of(
                #[trigger] enc_ow2_vec(w),
                data@.skip(pos as int),
            ) implies w.len() as u32 == n32 by {
            lemma_prefix_concat(enc_u32(w.len() as u32), enc_ow2_elems(w), data@.skip(pos as int));
        }
    }
    let n = n32 as usize;
    let mut out: Vec<ExecutionOutcomeWithIdView> = Vec::new();
    let mut p = p0;
    let mut j: usize = 0;
    while j < n
        invariant
            pos + 4 == p0,
            p0 <= p <= data@.len(),
            j <= n,
            n == n32 as usize,
            out@.len() == j,
            ow2_all_ok(view_outcomes(out@)),
            data@.subrange(pos as int, p0 as int) == enc_u32(n32),
            data@.subrange(p0 as int, p as int) == enc_ow2_elems(view_outcomes(out@)),
            forall|w: Seq<SpecOutcomeWithId>|
                w.len() < u32_bound() && ow2_all_ok(w) && prefix_of(
                    #[trigger] enc_ow2_vec(w),
                    data@.skip(pos as int),
                ) ==> w.len() == n && view_outcomes(out@) == w.take(j as int),
        decreases n - j,
    {
        let ghost out_old = view_outcomes(out@);
        let ghost p_old = p as int;
        match read_ow2(data, p) {
            None => {
                proof {
                    assert forall|w: Seq<SpecOutcomeWithId>|
                        w.len() < u32_bound() && ow2_all_ok(w) && prefix_of(
                            #[trigger] enc_ow2_vec(w),
                            data@.skip(pos as int),
                        ) implies false by {
                        lemma_target_ow2_prefix(
                            data@,
                            pos as int,
                            p0 as int,
                            p_old,
                            w,
                            out_old,
                            j as int,
                        );
                    }
                }
                return None;
            },
            Some((h, p2)) => {
                out.push(h);
                proof {
                    lemma_ow2_elems_push(out_old, h@);
                    assert(view_outcomes(out@) =~= out_old.push(h@));
                    assert(data@.subrange(p0 as int, p2 as int) =~= data@.subrange(
                        p0 as int,
                        p_old,
                    ) + data@.subrange(p_old, p2 as int));
                    assert forall|w: Seq<SpecOutcomeWithId>|
                        w.len() < u32_bound() && ow2_all_ok(w) && prefix_of(
                            #[trigger] enc_ow2_vec(w),
                            data@.skip(pos as int),
                        ) implies view_outcomes(out@) == w.take(j + 1) by {
                        lemma_target_ow2_prefix(
                            data@,
                            pos as int,
                            p0 as int,
                            p_old,
                            w,
                            out_old,
                            j as int,
                        );
                        assert(w.take(j + 1) =~= w.take(j as int).push(w[j as int]));
                    }
                }
                p = p2;
                j = j + 1;
            },
        }
    }
    proof {
        let outw = view_outcomes(out@);
        assert(data@.subrange(pos as int, p as int) =~= data@.subrange(pos as int, p0 as int)
            + data@.subrange(p0 as int, p as int));
        assert(outw.len() as u32 == n32);
        assert(data@.subrange(pos as int, p as int) == enc_ow2_vec(outw));
        assert forall|w: Seq<SpecOutcomeWithId>|
            w.len() < u32_bound() && ow2_all_ok(w) && prefix_of(
                #[trigger] enc_ow2_vec(w),
                data@.skip(pos as int),
            ) implies outw == w && p == pos + enc_ow2_vec(w).len() by {
            assert(w.take(w.len() as int) =~= w);
            assert(enc_ow2_elems(w) == enc_ow2_elems(outw));
            assert(enc_ow2_vec(w).len() == 4 + enc_ow2_elems(w).len());
            assert(p - p0 == enc_ow2_elems(outw).len());
        }
    }
    Some((out, p))
}

/// The same view with the nonce (absent before the current shape) zeroed.
pub open spec fn tx_unnonced(t: SpecTransactionView) -> SpecTransactionView {
    SpecTransactionView { nonce: 0, ..t }
}

// ---------------------------------------------------------------------------
// Whole records, current and historical.
// ---------------------------------------------------------------------------

/// The receipt ids of a receipt list.
pub open spec fn ids_of(s: Seq<SpecReceiptView>) -> Seq<CryptoHash> {
    s.map_values(|r: SpecReceiptView| r.receipt_id)
}

/// Receipt views carrying only an id, as the historical shapes stored them.
pub open spec fn wrap_receipt_ids(s: Seq<CryptoHash>) -> Seq<SpecReceiptView> {
    s.map_values(|h: CryptoHash| SpecReceiptView { receipt_id: h, priority: 0 })
}

pub open spec fn receipts_zero_priority(s: Seq<SpecReceiptView>) -> bool {
    forall|i: int| 0 <= i < s.len() ==> #[trigger] s[i].priority == 0
}

/// Sizes fit the `u32` length prefixes: what the current encoding asks of a
/// record.
pub open spec fn td_encodable(d: SpecTransactionDetails) -> bool {
    &&& d.receipts.len() < u32_bound()
    &&& d.receipts_outcome.len() < u32_bound()
    &&& ow2_all_ok(d.receipts_outcome)
    &&& final_status_ok(d.status)
    &&& tx2_ok(d.transaction)
    &&& ow2_ok(d.transaction_outcome)
}

/// The current on-disk encoding: the five fields in declaration order.
pub open spec fn enc_td(d: SpecTransactionDetails) -> Seq<u8>
    recommends
        td_encodable(d),
{
    enc_receipt_vec(d.receipts) + enc_ow2_vec(d.receipts_outcome) + enc_final_status(d.status)
        + enc_tx2(d.transaction) + enc_ow2(d.transaction_outcome)
}

pub open spec fn td_v0201_ok(d: SpecTransactionDetails) -> bool {
    &&& d.receipts.len() < u32_bound()
    &&& receipts_zero_priority(d.receipts)
    &&& d.receipts_outcome.len() < u32_bound()
    &&& ow0_all_ok(d.receipts_outcome)
    &&& final_status_ok(d.status)
    &&& tx0_ok(d.transaction)
    &&& ow0_ok(d.transaction_outcome)
}

/// The oldest stored shape: bare receipt ids, outcomes without burnt
/// counters, transactions without fee and nonce.
pub open spec fn enc_td_v0201(d: SpecTransactionDetails) -> Seq<u8>
    recommends
        td_v0201_ok(d),
{
    enc_hash_vec(ids_of(d.receipts)) + enc_ow0_vec(d.receipts_outcome) + enc_final_status(d.status)
        + enc_tx0(d.transaction) + enc_ow0(d.transaction_outcome)
}

pub open spec fn td_v0212_ok(d: SpecTransactionDetails) -> bool {
    &&& d.receipts.len() < u32_bound()
    &&& receipts_zero_priority(d.receipts)
    &&& d.receipts_outcome.len() < u32_bound()
    &&& ow0_all_ok(d.receipts_outcome)
    &&& final_status_ok(d.status)
    &&& tx1_ok(d.transaction)
    &&& ow0_ok(d.transaction_outcome)
}

/// The next shape: the transaction gained its priority fee.
pub open spec fn enc_td_v0212(d: SpecTransactionDetails) -> Seq<u8>
    recommends
        td_v0212_ok(d),
{
    enc_hash_vec(ids_of(d.receipts)) + enc_ow0_vec(d.receipts_outcome) + enc_final_status(d.status)
        + enc_tx1(d.transaction) + enc_ow0(d.transaction_outcome)
}

pub open spec fn td_v0220_ok(d: SpecTransactionDetails) -> bool {
    &&& d.receipts.len() < u32_bound()
    &&& receipts_zero_priority(d.receipts)
    &&& d.receipts_outcome.len() < u32_bound()
    &&& ow2_all_ok(d.receipts_outcome)
    &&& final_status_ok(d.status)
    &&& tx1_ok(d.transaction)
    &&& ow2_ok(d.transaction_outcome)
}

/// The next shape: outcomes gained the burnt gas and token counters.
pub open spec fn enc_td_v0220(d: SpecTransactionDetails) -> Seq<u8>
    recommends
        td_v0220_ok(d),
{
    enc_hash_vec(ids_of(d.receipts)) + enc_ow2_vec(d.receipts_outcome) + enc_final_status(d.status)
        + enc_tx1(d.transaction) + enc_ow2(d.transaction_outcome)
}

pub open spec fn td_v0230_ok(d: SpecTransactionDetails) -> bool {
    &&& d.receipts.len() < u32_bound()
    &&& receipts_zero_priority(d.receipts)
    &&& d.receipts_outcome.len() < u32_bound()
    &&& ow2_all_ok(d.receipts_outcome)
    &&& final_status_ok(d.status)
    &&& tx2_ok(d.transaction)
    &&& ow2_ok(d.transaction_outcome)
}

/// The newest historical shape: the transaction gained its nonce; only the
/// receipt entries still lack the priority of the current shape.
pub open spec fn enc_td_v0230(d: SpecTransactionDetails) -> Seq<u8>
    recommends
        td_v0230_ok(d),
{
    enc_hash_vec(ids_of(d.receipts)) + enc_ow2_vec(d.receipts_outcome) + enc_final_status(d.status)
        + enc_tx2(d.transaction) + enc_ow2(d.transaction_outcome)
}

/// Receipt views carrying only the id, with zero priority.
pub fn wrap_receipts(ids: &Vec<CryptoHash>) -> (r: Vec<ReceiptView>)
    ensures
        view_receipts(r@) == wrap_receipt_ids(ids@),
        r@.len() == ids@.len(),
{
    let mut out: Vec<ReceiptView> = Vec::new();
    let mut i: usize = 0;
    while i < ids.len()
        invariant
            i <= ids@.len(),
            out@.len() == i,
            forall|j: int|
                0 <= j < i ==> out@[j]@ == (SpecReceiptView {
                    receipt_id: ids@[j],
                    priority: 0,
                }),
        decreases ids@.len() - i,
    {
        out.push(ReceiptView { receipt_id: ids[i], priority: 0 });
        i = i + 1;
    }
    proof {
        assert(view_receipts(out@) =~= wrap_receipt_ids(ids@));
    }
    out
}

/// Splits a five-part concatenation into the five prefixes at their
/// cumulative offsets.
proof fn lemma_td_split(a1: Seq<u8>, a2: Seq<u8>, a3: Seq<u8>, a4: Seq<u8>, a5: Seq<u8>, data: Seq<u8>)
    requires
        data == a1 + a2 + a3 + a4 + a5,
    ensures
        prefix_of(a1, data),
        prefix_of(a2, data.skip(a1.len() as int)),
        prefix_of(a3, data.skip((a1.len() + a2.len()) as int)),
        prefix_of(a4, data.skip((a1.len() + a2.len() + a3.len()) as int)),
        prefix_of(a5, data.skip((a1.len() + a2.len() + a3.len() + a4.len()) as int)),
        data.len() == a1.len() + a2.len() + a3.len() + a4.len() + a5.len(),
{
    assert(data.take(data.len() as int) =~= data);
    assert(prefix_of(a1 + a2 + a3 + a4 + a5, data));
    lemma_prefix_concat(a1 + a2 + a3 + a4, a5, data);
    lemma_prefix_concat(a1 + a2 + a3, a4, data);
    lemma_prefix_concat(a1 + a2, a3, data);
    lemma_prefix_concat(a1, a2, data);
}

/// Decodes the current encoding exactly: succeeds precisely on `enc_td` of
/// an encodable record, consuming the whole input.
fn decode_td_current(data: &Vec<u8>) -> (r: Option<TransactionDetails>)
    ensures
        match r {
            Some(v) => td_encodable(v@) && enc_td(v@) == data@,
            None => true,
        },
        forall|w: SpecTransactionDetails|
            td_encodable(w) && data@ == #[trigger] enc_td(w) ==> r is Some && r->Some_0@ == w,
{
    proof {
        assert(data@.skip(0) =~= data@);
        assert forall|w: SpecTransactionDetails|
            td_encodable(w) && data@ == #[trigger] enc_td(w) implies w.receipts.len()
            < u32_bound() && prefix_of(enc_receipt_vec(w.receipts), data@.skip(0)) by {
            lemma_td_split(
                enc_receipt_vec(w.receipts),
                enc_ow2_vec(w.receipts_outcome),
                enc_final_status(w.status),
                enc_tx2(w.transaction),
                enc_ow2(w.transaction_outcome),
                data@,
            );
        }
    }
    let (rv, p1) = match read_receipt_vec(data, 0) {
        None => {
            return None;
        },
        Some(x) => x,
    };
    proof {
        assert forall|w: SpecTransactionDetails|
            td_encodable(w) && data@ == #[trigger] enc_td(w) implies view_receipts(rv@)
            == w.receipts && p1 == enc_receipt_vec(w.receipts).len() && prefix_of(
            enc_ow2_vec(w.receipts_outcome),
            data@.skip(p1 as int),
        ) by {
            lemma_td_split(
                enc_receipt_vec(w.receipts),
                enc_ow2_vec(w.receipts_outcome),
                enc_final_status(w.status),
                enc_tx2(w.transaction),
                enc_ow2(w.transaction_outcome),
                data@,
            );
        }
    }
    let (ov, p2) = match read_ow2_vec(data, p1) {
        None => {
            return None;
        },
        Some(x) => x,
    };
    proof {
        assert forall|w: SpecTransactionDetails|
            td_encodable(w) && data@ == #[trigger] enc_td(w) implies view_outcomes(ov@)
            == w.receipts_outcome && p2 == enc_receipt_vec(w.receipts).len() + enc_ow2_vec(
            w.receipts_outcome,
        ).len() && prefix_of(enc_final_status(w.status), data@.skip(p2 as int)) by {
            lemma_td_split(
                enc_receipt_vec(w.receipts),
                enc_ow2_vec(w.receipts_outcome),
                enc_final_status(w.status),
                enc_tx2(w.transaction),
                enc_ow2(w.transaction_outcome),
                data@,
            );
        }
    }
    let (st, p3) = match read_final_status(data, p2) {
        None => {
            return None;
        },
        Some(x) => x,
    };
    proof {
        assert forall|w: SpecTransactionDetails|
            td_encodable(w) && data@ == #[trigger] enc_td(w) implies st@ == w.status && p3
            == enc_receipt_vec(w.receipts).len() + enc_ow2_vec(w.receipts_outcome).len()
            + enc_final_status(w.status).len() && prefix_of(
            enc_tx2(w.transaction),
            data@.skip(p3 as int),
        ) by {
            lemma_td_split(
                enc_receipt_vec(w.receipts),
                enc_ow2_vec(w.receipts_outcome),
                enc_final_status(w.status),
                enc_tx2(w.transaction),
                enc_ow2(w.transaction_outcome),
                data@,
            );
        }
    }
    let (tx, p4) = match read_tx2(data, p3) {
        None => {
            return None;
        },
        Some(x) => x,
    };
    proof {
        assert forall|w: SpecTransactionDetails|
            td_encodable(w) && data@ == #[trigger] enc_td(w) implies tx@ == w.transaction && p4
            == enc_receipt_vec(w.receipts).len() + enc_ow2_vec(w.receipts_outcome).len()
            + enc_final_status(w.status).len() + enc_tx2(w.transaction).len() && prefix_of(
            enc_ow2(w.transaction_outcome),
            data@.skip(p4 as int),
        ) by {
            lemma_td_split(
                enc_receipt_vec(w.receipts),
                enc_ow2_vec(w.receipts_outcome),
                enc_final_status(w.status),
                enc_tx2(w.transaction),
                enc_ow2(w.transaction_outcome),
                data@,
            );
        }
    }
    let (txo, p5) = match read_ow2(data, p4) {
        None => {
            return None;
        },
        Some(x) => x,
    };
    proof {
        assert forall|w: SpecTransactionDetails|
            td_encodable(w) && data@ == #[trigger] enc_td(w) implies txo@ == w.transaction_outcome
            && p5 == data@.len() by {
            lemma_td_split(
                enc_receipt_vec(w.receipts),
                enc_ow2_vec(w.receipts_outcome),
                enc_final_status(w.status),
                enc_tx2(w.transaction),
                enc_ow2(w.transaction_outcome),
                data@,
            );
        }
    }
    if p5 != data.len() {
        return None;
    }
    let v = TransactionDetails {
        receipts: rv,
        receipts_outcome: ov,
        status: st,
        transaction: tx,
        transaction_outcome: txo,
    };
    proof {
        assert(data@.subrange(0, p5 as int) =~= data@.subrange(0, p1 as int) + data@.subrange(
            p1 as int,
            p2 as int,
        ) + data@.subrange(p2 as int, p3 as int) + data@.subrange(p3 as int, p4 as int)
            + data@.subrange(p4 as int, p5 as int));
        assert(data@.subrange(0, p5 as int) =~= data@);
        assert(enc_td(v@) == data@);
        assert forall|w: SpecTransactionDetails|
            td_encodable(w) && data@ == #[trigger] enc_td(w) implies v@ == w by {
            assert(v@ =~= w);
        }
    }
    Some(v)
}

pub proof fn lemma_ids_wrap(s: Seq<CryptoHash>)
    ensures
        ids_of(wrap_receipt_ids(s)) == s,
{
    assert(ids_of(wrap_receipt_ids(s)) =~= s);
}

/// Decoding failed in every known shape.
#[derive(Clone, Copy, PartialEq, Eq, Structural, Debug)]
pub enum DecodeError {
    UnknownFormat,
}

/// No encodable record has the given bytes as its current encoding.
pub open spec fn no_current_match(data: Seq<u8>) -> bool {
    forall|w: SpecTransactionDetails| !(td_encodable(w) && data == #[trigger] enc_td(w))
}

/// No record has the given bytes as its encoding in the named historical
/// shape; together with `no_current_match` these express the oldest-first
/// try order of the fallback chain.
pub open spec fn no_v0201_match(data: Seq<u8>) -> bool {
    forall|w: SpecTransactionDetails| !(td_v0201_ok(w) && data == #[trigger] enc_td_v0201(w))
}

pub open spec fn no_v0212_match(data: Seq<u8>) -> bool {
    forall|w: SpecTransactionDetails| !(td_v0212_ok(w) && data == #[trigger] enc_td_v0212(w))
}

pub open spec fn no_v0220_match(data: Seq<u8>) -> bool {
    forall|w: SpecTransactionDetails| !(td_v0220_ok(w) && data == #[trigger] enc_td_v0220(w))
}

/// Everything the stored-record decoder promises of its result: the
/// current shape decodes to its own value; each historical shape is
/// accepted, and, when no earlier shape in the oldest-first order matches
/// the bytes, the returned record is exactly that shape's projection; a
/// success always returns a record whose encoding in one of the five
/// shapes is the input; and the only failure is the unknown-format error.
pub open spec fn spec_decode_post(data: Seq<u8>, r: Result<TransactionDetails, DecodeError>) -> bool {
    &&& forall|w: SpecTransactionDetails|
        td_encodable(w) && data == #[trigger] enc_td(w) ==> r is Ok && r->Ok_0@ == w
    &&& forall|w: SpecTransactionDetails|
        td_v0201_ok(w) && data == #[trigger] enc_td_v0201(w) ==> r is Ok
    &&& forall|w: SpecTransactionDetails|
        td_v0201_ok(w) && data == #[trigger] enc_td_v0201(w) && no_current_match(data) ==> r is Ok
            && r->Ok_0@ == w
    &&& forall|w: SpecTransactionDetails|
        td_v0212_ok(w) && data == #[trigger] enc_td_v0212(w) ==> r is Ok
    &&& forall|w: SpecTransactionDetails|
        td_v0212_ok(w) && data == #[trigger] enc_td_v0212(w) && no_current_match(data)
            && no_v0201_match(data) ==> r is Ok && r->Ok_0@ == w
    &&& forall|w: SpecTransactionDetails|
        td_v0220_ok(w) && data == #[trigger] enc_td_v0220(w) ==> r is Ok
    &&& forall|w: SpecTransactionDetails|
        td_v0220_ok(w) && data == #[trigger] enc_td_v0220(w) && no_current_match(data)
            && no_v0201_match(data) && no_v0212_match(data) ==> r is Ok && r->Ok_0@ == w
    &&& forall|w: SpecTransactionDetails|
        td_v0230_ok(w) && data == #[trigger] enc_td_v0230(w) ==> r is Ok
    &&& forall|w: SpecTransactionDetails|
        td_v0230_ok(w) && data == #[trigger] enc_td_v0230(w) && no_current_match(data)
            && no_v0201_match(data) && no_v0212_match(data) && no_v0220_match(data) ==> r is Ok
            && r->Ok_0@ == w
    &&& match r {
        Ok(v) => {
            ||| td_encodable(v@) && enc_td(v@) == data
            ||| td_v0201_ok(v@) && enc_td_v0201(v@) == data
            ||| td_v0212_ok(v@) && enc_td_v0212(v@) == data
            ||| td_v0220_ok(v@) && enc_td_v0220(v@) == data
            ||| td_v0230_ok(v@) && enc_td_v0230(v@) == data
        },
        Err(e) => e == DecodeError::UnknownFormat,
    }
}

fn status_len_ok(s: &ExecutionStatusView) -> (r: bool)
    ensures
        r == status_ok(s@),
{
    match s {
        ExecutionStatusView::Unknown => true,
        ExecutionStatusView::Failure(e) => (e.len() as u64) < 0x1_0000_0000u64,
        ExecutionStatusView::SuccessValue(v) => (v.len() as u64) < 0x1_0000_0000u64,
        ExecutionStatusView::SuccessReceiptId(_) => true,
    }
}

fn outcome_len_ok(o: &ExecutionOutcomeWithIdView) -> (r: bool)
    ensures
        r == ow2_ok(o@),
{
    status_len_ok(&o.outcome.status) && (o.outcome.receipt_ids.len() as u64) < 0x1_0000_0000u64
}

impl TransactionDetails {
    /// Whether every sequence of this record fits its `u32` length prefix,
    /// so that the record can be encoded.
    pub fn is_encodable(&self) -> (r: bool)
        ensures
            r == td_encodable(self@),
    {
        if (self.receipts.len() as u64) >= 0x1_0000_0000u64 {
            return false;
        }
        if (self.receipts_outcome.len() as u64) >= 0x1_0000_0000u64 {
            return false;
        }
        let mut i: usize = 0;
        while i < self.receipts_outcome.len()
            invariant
                i <= self.receipts_outcome@.len(),
                forall|j: int|
                    0 <= j < i ==> ow2_ok(#[trigger] view_outcomes(self.receipts_outcome@)[j]),
            decreases self.receipts_outcome@.len() - i,
        {
            if !outcome_len_ok(&self.receipts_outcome[i]) {
                proof {
                    assert(!ow2_ok(view_outcomes(self.receipts_outcome@)[i as int]));
                }
                return false;
            }
            i = i + 1;
        }
        let fs_ok = match &self.status {
            FinalExecutionStatus::NotStarted => true,
            FinalExecutionStatus::Started => true,
            FinalExecutionStatus::Failure(e) => (e.len() as u64) < 0x1_0000_0000u64,
            FinalExecutionStatus::SuccessValue(v) => (v.len() as u64) < 0x1_0000_0000u64,
        };
        if !fs_ok {
            return false;
        }
        if (self.transaction.signer_id.bytes.len() as u64) >= 0x1_0000_0000u64 {
            return false;
        }
        if (self.transaction.receiver_id.bytes.len() as u64) >= 0x1_0000_0000u64 {
            return false;
        }
        if !outcome_len_ok(&self.transaction_outcome) {
            return false;
        }
        true
    }

    /// The stable binary encoding of the current shape: the five fields in
    /// declaration order, little-endian integers, `u32` length prefixes.
    pub fn borsh_serialize(&self) -> (r: Vec<u8>)
        requires
            td_encodable(self@),
        ensures
            r@ == enc_td(self@),
    {
        let mut out: Vec<u8> = Vec::new();
        write_receipt_vec(&mut out, &self.receipts);
        write_ow2_vec(&mut out, &self.receipts_outcome);
        write_final_status(&mut out, &self.status);
        write_tx2(&mut out, &self.transaction);
        write_ow2(&mut out, &self.transaction_outcome);
        proof {
            assert(out@ =~= enc_td(self@));
        }
        out
    }

    /// Decodes a stored record. The current shape is tried first; on
    /// failure each historical shape is tried, oldest first, and the match
    /// is projected into the current shape. Fails when no shape matches.
    pub fn borsh_deserialize(data: &Vec<u8>) -> (r: Result<TransactionDetails, DecodeError>)
        ensures
            spec_decode_post(data@, r),
    {
        match decode_td_current(data) {
            Some(v) => Ok(v),
            None => {
                match TransactionDetailsV0201::borsh_deserialize(data) {
                    Some(v) => Ok(v.to_latest()),
                    None => {
                        match TransactionDetailsV0212::borsh_deserialize(data) {
                            Some(v) => Ok(v.to_latest()),
                            None => {
                                match TransactionDetailsV0220::borsh_deserialize(data) {
                                    Some(v) => Ok(v.to_latest()),
                                    None => {
                                        match TransactionDetailsV0230::borsh_deserialize(data) {
                                            Some(v) => Ok(v.to_latest()),
                                            None => Err(DecodeError::UnknownFormat),
                                        }
                                    },
                                }
                            },
                        }
                    },
                }
            },
        }
    }
}

pub proof fn lemma_wrap_ids(r: Seq<SpecReceiptView>)
    requires
        receipts_zero_priority(r),
    ensures
        wrap_receipt_ids(ids_of(r)) == r,
{
    assert forall|i: int| 0 <= i < r.len() implies wrap_receipt_ids(ids_of(r))[i] == r[i] by {
        assert(r[i].priority == 0);
        assert(wrap_receipt_ids(ids_of(r))[i] =~= r[i]);
    }
    assert(wrap_receipt_ids(ids_of(r)) =~= r);
}

/// The oldest stored record shape: bare receipt ids, outcomes without burnt counters, transactions without fee and nonce.
#[derive(Clone, PartialEq, Debug)]
pub struct TransactionDetailsV0201 {
    pub receipts: Vec<CryptoHash>,
    pub receipts_outcome: Vec<ExecutionOutcomeWithIdView>,
    pub status: FinalExecutionStatus,
    pub transaction: SignedTransactionView,
    pub transaction_outcome: ExecutionOutcomeWithIdView,
}

impl View for TransactionDetailsV0201 {
    type V = SpecTransactionDetails;

    open spec fn view(&self) -> SpecTransactionDetails {
        SpecTransactionDetails {
            receipts: wrap_receipt_ids(self.receipts@),
            receipts_outcome: view_outcomes(self.receipts_outcome@),
            status: self.status@,
            transaction: self.transaction@,
            transaction_outcome: self.transaction_outcome@,
        }
    }
}

impl TransactionDetailsV0201 {
    /// Decodes this historical shape exactly: succeeds precisely on enc_td_v0201
    /// of a well-sized record, consuming the whole input.
    pub fn borsh_deserialize(data: &Vec<u8>) -> (r: Option<TransactionDetailsV0201>)
        ensures
            match r {
                Some(v) => td_v0201_ok(v@) && enc_td_v0201(v@) == data@,
                None => true,
            },
            forall|w: SpecTransactionDetails|
                td_v0201_ok(w) && data@ == #[trigger] enc_td_v0201(w) ==> r is Some && r->Some_0@ == w,
    {
        proof {
            assert(data@.skip(0) =~= data@);
            assert forall|w: SpecTransactionDetails|
                td_v0201_ok(w) && data@ == #[trigger] enc_td_v0201(w) implies ids_of(w.receipts).len()
                < u32_bound() && prefix_of(enc_hash_vec(ids_of(w.receipts)), data@.skip(0)) by {
                lemma_td_split(
                    enc_hash_vec(ids_of(w.receipts)),
                    enc_ow0_vec(w.receipts_outcome),
                    enc_final_status(w.status),
                    enc_tx0(w.transaction),
                    enc_ow0(w.transaction_outcome),
                    data@,
                );
            }
        }
        let (rids, p1) = match read_hash_vec(data, 0) {
            None => {
                return None;
            },
            Some(x) => x,
        };
        proof {
            assert forall|w: SpecTransactionDetails|
                td_v0201_ok(w) && data@ == #[trigger] enc_td_v0201(w) implies rids@ == ids_of(w.receipts) && p1
                == enc_hash_vec(ids_of(w.receipts)).len() && prefix_of(
                enc_ow0_vec(w.receipts_outcome),
                data@.skip(p1 as int),
            ) by {
                lemma_td_split(
                    enc_hash_vec(ids_of(w.receipts)),
                    enc_ow0_vec(w.receipts_outcome),
                    enc_final_status(w.status),
                    enc_tx0(w.transaction),
                    enc_ow0(w.transaction_outcome),
                    data@,
                );
            }
        }
        let (ov, p2) = match read_ow0_vec(data, p1) {
            None => {
                return None;
            },
            Some(x) => x,
        };
        proof {
            assert forall|w: SpecTransactionDetails|
                td_v0201_ok(w) && data@ == #[trigger] enc_td_v0201(w) implies view_outcomes(ov@)
                == w.receipts_outcome && p2 == enc_hash_vec(ids_of(w.receipts)).len() + enc_ow0_vec(
                w.receipts_outcome,
            ).len() && prefix_of(enc_final_status(w.status), data@.skip(p2 as int)) by {
                lemma_td_split(
                    enc_hash_vec(ids_of(w.receipts)),
                    enc_ow0_vec(w.receipts_outcome),
                    enc_final_status(w.status),
                    enc_tx0(w.transaction),
                    enc_ow0(w.transaction_outcome),
                    data@,
                );
            }
        }
        let (st, p3) = match read_final_status(data, p2) {
            None => {
                return None;
            },
            Some(x) => x,
        };
        proof {
            assert forall|w: SpecTransactionDetails|
                td_v0201_ok(w) && data@ == #[trigger] enc_td_v0201(w) implies st@ == w.status && p3
                == enc_hash_vec(ids_of(w.receipts)).len() + enc_ow0_vec(w.receipts_outcome).len()
                + enc_final_status(w.status).len() && prefix_of(
                enc_tx0(w.transaction),
                data@.skip(p3 as int),
            ) by {
                lemma_td_split(
                    enc_hash_vec(ids_of(w.receipts)),
                    enc_ow0_vec(w.receipts_outcome),
                    enc_final_status(w.status),
                    enc_tx0(w.transaction),
                    enc_ow0(w.transaction_outcome),
                    data@,
                );
            }
        }
        let (tx, p4) = match read_tx0(data, p3) {
            None => {
                return None;
            },
            Some(x) => x,
        };
        proof {
            assert forall|w: SpecTransactionDetails|
                td_v0201_ok(w) && data@ == #[trigger] enc_td_v0201(w) implies tx@ == w.transaction && p4
                == enc_hash_vec(ids_of(w.receipts)).len() + enc_ow0_vec(w.receipts_outcome).len()
                + enc_final_status(w.status).len() + enc_tx0(w.transaction).len() && prefix_of(
                enc_ow0(w.transaction_outcome),
                data@.skip(p4 as int),
            ) by {
                lemma_td_split(
                    enc_hash_vec(ids_of(w.receipts)),
                    enc_ow0_vec(w.receipts_outcome),
                    enc_final_status(w.status),
                    enc_tx0(w.transaction),
                    enc_ow0(w.transaction_outcome),
                    data@,
                );
            }
        }
        let (txo, p5) = match read_ow0(data, p4) {
            None => {
                return None;
            },
            Some(x) => x,
        };
        proof {
            assert forall|w: SpecTransactionDetails|
                td_v0201_ok(w) && data@ == #[trigger] enc_td_v0201(w) implies txo@ == w.transaction_outcome && p5
                == data@.len() by {
                lemma_td_split(
                    enc_hash_vec(ids_of(w.receipts)),
                    enc_ow0_vec(w.receipts_outcome),
                    enc_final_status(w.status),
                    enc_tx0(w.transaction),
                    enc_ow0(w.transaction_outcome),
                    data@,
                );
            }
        }
        if p5 != data.len() {
            return None;
        }
        let v = TransactionDetailsV0201 {
            receipts: rids,
            receipts_outcome: ov,
            status: st,
            transaction: tx,
            transaction_outcome: txo,
        };
        proof {
            lemma_ids_wrap(rids@);
            assert forall|i: int| 0 <= i < v@.receipts.len() implies #[trigger] v@.receipts[i].priority
                == 0 by {}
            assert(data@.subrange(0, p5 as int) =~= data@.subrange(0, p1 as int) + data@.subrange(
                p1 as int,
                p2 as int,
            ) + data@.subrange(p2 as int, p3 as int) + data@.subrange(p3 as int, p4 as int)
                + data@.subrange(p4 as int, p5 as int));
            assert(data@.subrange(0, p5 as int) =~= data@);
            assert(enc_td_v0201(v@) == data@);
            assert forall|w: SpecTransactionDetails|
                td_v0201_ok(w) && data@ == #[trigger] enc_td_v0201(w) implies v@ == w by {
                lemma_wrap_ids(w.receipts);
                assert(v@ =~= w);
            }
        }
        Some(v)
    }

    /// Encodes this historical shape; used to produce stored payloads of
    /// the old form.
    pub fn borsh_serialize(&self) -> (r: Vec<u8>)
        requires
            td_v0201_ok(self@),
        ensures
            r@ == enc_td_v0201(self@),
    {
        proof {
            lemma_ids_wrap(self.receipts@);
        }
        let mut out: Vec<u8> = Vec::new();
        write_hash_vec(&mut out, &self.receipts);
        write_ow0_vec(&mut out, &self.receipts_outcome);
        write_final_status(&mut out, &self.status);
        write_tx0(&mut out, &self.transaction);
        write_ow0(&mut out, &self.transaction_outcome);
        proof {
            assert(out@ =~= enc_td_v0201(self@));
        }
        out
    }

    /// Projects this historical record into the current shape. Every field
    /// both shapes share is kept as it is; the fields this shape lacked
    /// read as zero.
    pub fn to_latest(self) -> (r: TransactionDetails)
        ensures
            r@ == self@,
    {
        let receipts = wrap_receipts(&self.receipts);
        let r = TransactionDetails {
            receipts,
            receipts_outcome: self.receipts_outcome,
            status: self.status,
            transaction: self.transaction,
            transaction_outcome: self.transaction_outcome,
        };
        proof {
            assert(r@ =~= self@);
        }
        r
    }
}
/// The second stored record shape: the transaction gained its priority fee.
#[derive(Clone, PartialEq, Debug)]
pub struct TransactionDetailsV0212 {
    pub receipts: Vec<CryptoHash>,
    pub receipts_outcome: Vec<ExecutionOutcomeWithIdView>,
    pub status: FinalExecutionStatus,
    pub transaction: SignedTransactionView,
    pub transaction_outcome: ExecutionOutcomeWithIdView,
}

impl View for TransactionDetailsV0212 {
    type V = SpecTransactionDetails;

    open spec fn view(&self) -> SpecTransactionDetails {
        SpecTransactionDetails {
            receipts: wrap_receipt_ids(self.receipts@),
            receipts_outcome: view_outcomes(self.receipts_outcome@),
            status: self.status@,
            transaction: self.transaction@,
            transaction_outcome: self.transaction_outcome@,
        }
    }
}

impl TransactionDetailsV0212 {
    /// Decodes this historical shape exactly: succeeds precisely on enc_td_v0212
    /// of a well-sized record, consuming the whole input.
    pub fn borsh_deserialize(data: &Vec<u8>) -> (r: Option<TransactionDetailsV0212>)
        ensures
            match r {
                Some(v) => td_v0212_ok(v@) && enc_td_v0212(v@) == data@,
                None => true,
            },
            forall|w: SpecTransactionDetails|
                td_v0212_ok(w) && data@ == #[trigger] enc_td_v0212(w) ==> r is Some && r->Some_0@ == w,
    {
        proof {
            assert(data@.skip(0) =~= data@);
            assert forall|w: SpecTransactionDetails|
                td_v0212_ok(w) && data@ == #[trigger] enc_td_v0212(w) implies ids_of(w.receipts).len()
                < u32_bound() && prefix_of(enc_hash_vec(ids_of(w.receipts)), data@.skip(0)) by {
                lemma_td_split(
                    enc_hash_vec(ids_of(w.receipts)),
                    enc_ow0_vec(w.receipts_outcome),
                    enc_final_status(w.status),
                    enc_tx1(w.transaction),
                    enc_ow0(w.transaction_outcome),
                    data@,
                );
            }
        }
        let (rids, p1) = match read_hash_vec(data, 0) {
            None => {
                return None;
            },
            Some(x) => x,
        };
        proof {
            assert forall|w: SpecTransactionDetails|
                td_v0212_ok(w) && data@ == #[trigger] enc_td_v0212(w) implies rids@ == ids_of(w.receipts) && p1
                == enc_hash_vec(ids_of(w.receipts)).len() && prefix_of(
                enc_ow0_vec(w.receipts_outcome),
                data@.skip(p1 as int),
            ) by {
                lemma_td_split(
                    enc_hash_vec(ids_of(w.receipts)),
                    enc_ow0_vec(w.receipts_outcome),
                    enc_final_status(w.status),
                    enc_tx1(w.transaction),
                    enc_ow0(w.transaction_outcome),
                    data@,
                );
            }
        }
        let (ov, p2) = match read_ow0_vec(data, p1) {
            None => {
                return None;
            },
            Some(x) => x,
        };
        proof {
            assert forall|w: SpecTransactionDetails|
                td_v0212_ok(w) && data@ == #[trigger] enc_td_v0212(w) implies view_outcomes(ov@)
                == w.receipts_outcome && p2 == enc_hash_vec(ids_of(w.receipts)).len() + enc_ow0_vec(
                w.receipts_outcome,
            ).len() && prefix_of(enc_final_status(w.status), data@.skip(p2 as int)) by {
                lemma_td_split(
                    enc_hash_vec(ids_of(w.receipts)),
                    enc_ow0_vec(w.receipts_outcome),
                    enc_final_status(w.status),
                    enc_tx1(w.transaction),
                    enc_ow0(w.transaction_outcome),
                    data@,
                );
            }
        }
        let (st, p3) = match read_final_status(data, p2) {
            None => {
                return None;
            },
            Some(x) => x,
        };
        proof {
            assert forall|w: SpecTransactionDetails|
                td_v0212_ok(w) && data@ == #[trigger] enc_td_v0212(w) implies st@ == w.status && p3
                == enc_hash_vec(ids_of(w.receipts)).len() + enc_ow0_vec(w.receipts_outcome).len()
                + enc_final_status(w.status).len() && prefix_of(
                enc_tx1(w.transaction),
                data@.skip(p3 as int),
            ) by {
                lemma_td_split(
                    enc_hash_vec(ids_of(w.receipts)),
                    enc_ow0_vec(w.receipts_outcome),
                    enc_final_status(w.status),
                    enc_tx1(w.transaction),
                    enc_ow0(w.transaction_outcome),
                    data@,
                );
            }
        }
        let (tx, p4) = match read_tx1(data, p3) {
            None => {
                return None;
            },
            Some(x) => x,
        };
        proof {
            assert forall|w: SpecTransactionDetails|
                td_v0212_ok(w) && data@ == #[trigger] enc_td_v0212(w) implies tx@ == w.transaction && p4
                == enc_hash_vec(ids_of(w.receipts)).len() + enc_ow0_vec(w.receipts_outcome).len()
                + enc_final_status(w.status).len() + enc_tx1(w.transaction).len() && prefix_of(
                enc_ow0(w.transaction_outcome),
                data@.skip(p4 as int),
            ) by {
                lemma_td_split(
                    enc_hash_vec(ids_of(w.receipts)),
                    enc_ow0_vec(w.receipts_outcome),
                    enc_final_status(w.status),
                    enc_tx1(w.transaction),
                    enc_ow0(w.transaction_outcome),
                    data@,
                );
            }
        }
        let (txo, p5) = match read_ow0(data, p4) {
            None => {
                return None;
            },
            Some(x) => x,
        };
        proof {
            assert forall|w: SpecTransactionDetails|
                td_v0212_ok(w) && data@ == #[trigger] enc_td_v0212(w) implies txo@ == w.transaction_outcome && p5
                == data@.len() by {
                lemma_td_split(
                    enc_hash_vec(ids_of(w.receipts)),
                    enc_ow0_vec(w.receipts_outcome),
                    enc_final_status(w.status),
                    enc_tx1(w.transaction),
                    enc_ow0(w.transaction_outcome),
                    data@,
                );
            }
        }
        if p5 != data.len() {
            return None;
        }
        let v = TransactionDetailsV0212 {
            receipts: rids,
            receipts_outcome: ov,
            status: st,
            transaction: tx,
            transaction_outcome: txo,
        };
        proof {
            lemma_ids_wrap(rids@);
            assert forall|i: int| 0 <= i < v@.receipts.len() implies #[trigger] v@.receipts[i].priority
                == 0 by {}
            assert(data@.subrange(0, p5 as int) =~= data@.subrange(0, p1 as int) + data@.subrange(
                p1 as int,
                p2 as int,
            ) + data@.subrange(p2 as int, p3 as int) + data@.subrange(p3 as int, p4 as int)
                + data@.subrange(p4 as int, p5 as int));
            assert(data@.subrange(0, p5 as int) =~= data@);
            assert(enc_td_v0212(v@) == data@);
            assert forall|w: SpecTransactionDetails|
                td_v0212_ok(w) && data@ == #[trigger] enc_td_v0212(w) implies v@ == w by {
                lemma_wrap_ids(w.receipts);
                assert(v@ =~= w);
            }
        }
        Some(v)
    }

    /// Encodes this historical shape; used to produce stored payloads of
    /// the old form.
    pub fn borsh_serialize(&self) -> (r: Vec<u8>)
        requires
            td_v0212_ok(self@),
        ensures
            r@ == enc_td_v0212(self@),
    {
        proof {
            lemma_ids_wrap(self.receipts@);
        }
        let mut out: Vec<u8> = Vec::new();
        write_hash_vec(&mut out, &self.receipts);
        write_ow0_vec(&mut out, &self.receipts_outcome);
        write_final_status(&mut out, &self.status);
        write_tx1(&mut out, &self.transaction);
        write_ow0(&mut out, &self.transaction_outcome);
        proof {
            assert(out@ =~= enc_td_v0212(self@));
        }
        out
    }

    /// Projects this historical record into the current shape. Every field
    /// both shapes share is kept as it is; the fields this shape lacked
    /// read as zero.
    pub fn to_latest(self) -> (r: TransactionDetails)
        ensures
            r@ == self@,
    {
        let receipts = wrap_receipts(&self.receipts);
        let r = TransactionDetails {
            receipts,
            receipts_outcome: self.receipts_outcome,
            status: self.status,
            transaction: self.transaction,
            transaction_outcome: self.transaction_outcome,
        };
        proof {
            assert(r@ =~= self@);
        }
        r
    }
}
/// The third stored record shape: outcomes gained the burnt gas and token counters.
#[derive(Clone, PartialEq, Debug)]
pub struct TransactionDetailsV0220 {
    pub receipts: Vec<CryptoHash>,
    pub receipts_outcome: Vec<ExecutionOutcomeWithIdView>,
    pub status: FinalExecutionStatus,
    pub transaction: SignedTransactionView,
    pub transaction_outcome: ExecutionOutcomeWithIdView,
}

impl View for TransactionDetailsV0220 {
    type V = SpecTransactionDetails;

    open spec fn view(&self) -> SpecTransactionDetails {
        SpecTransactionDetails {
            receipts: wrap_receipt_ids(self.receipts@),
            receipts_outcome: view_outcomes(self.receipts_outcome@),
            status: self.status@,
            transaction: self.transaction@,
            transaction_outcome: self.transaction_outcome@,
        }
    }
}

impl TransactionDetailsV0220 {
    /// Decodes this historical shape exactly: succeeds precisely on enc_td_v0220
    /// of a well-sized record, consuming the whole input.
    pub fn borsh_deserialize(data: &Vec<u8>) -> (r: Option<TransactionDetailsV0220>)
        ensures
            match r {
                Some(v) => td_v0220_ok(v@) && enc_td_v0220(v@) == data@,
                None => true,
            },
            forall|w: SpecTransactionDetails|
                td_v0220_ok(w) && data@ == #[trigger] enc_td_v0220(w) ==> r is Some && r->Some_0@ == w,
    {
        proof {
            assert(data@.skip(0) =~= data@);
            assert forall|w: SpecTransactionDetails|
                td_v0220_ok(w) && data@ == #[trigger] enc_td_v0220(w) implies ids_of(w.receipts).len()
                < u32_bound() && prefix_of(enc_hash_vec(ids_of(w.receipts)), data@.skip(0)) by {
                lemma_td_split(
                    enc_hash_vec(ids_of(w.receipts)),
                    enc_ow2_vec(w.receipts_outcome),
                    enc_final_status(w.status),
                    enc_tx1(w.transaction),
                    enc_ow2(w.transaction_outcome),
                    data@,
                );
            }
        }
        let (rids, p1) = match read_hash_vec(data, 0) {
            None => {
                return None;
            },
            Some(x) => x,
        };
        proof {
            assert forall|w: SpecTransactionDetails|
                td_v0220_ok(w) && data@ == #[trigger] enc_td_v0220(w) implies rids@ == ids_of(w.receipts) && p1
                == enc_hash_vec(ids_of(w.receipts)).len() && prefix_of(
                enc_ow2_vec(w.receipts_outcome),
                data@.skip(p1 as int),
            ) by {
                lemma_td_split(
                    enc_hash_vec(ids_of(w.receipts)),
                    enc_ow2_vec(w.receipts_outcome),
                    enc_final_status(w.status),
                    enc_tx1(w.transaction),
                    enc_ow2(w.transaction_outcome),
                    data@,
                );
            }
        }
        let (ov, p2) = match read_ow2_vec(data, p1) {
            None => {
                return None;
            },
            Some(x) => x,
        };
        proof {
            assert forall|w: SpecTransactionDetails|
                td_v0220_ok(w) && data@ == #[trigger] enc_td_v0220(w) implies view_outcomes(ov@)
                == w.receipts_outcome && p2 == enc_hash_vec(ids_of(w.receipts)).len() + enc_ow2_vec(
                w.receipts_outcome,
            ).len() && prefix_of(enc_final_status(w.status), data@.skip(p2 as int)) by {
                lemma_td_split(
                    enc_hash_vec(ids_of(w.receipts)),
                    enc_ow2_vec(w.receipts_outcome),
                    enc_final_status(w.status),
                    enc_tx1(w.transaction),
                    enc_ow2(w.transaction_outcome),
                    data@,
                );
            }
        }
        let (st, p3) = match read_final_status(data, p2) {
            None => {
                return None;
            },
            Some(x) => x,
        };
        proof {
            assert forall|w: SpecTransactionDetails|
                td_v0220_ok(w) && data@ == #[trigger] enc_td_v0220(w) implies st@ == w.status && p3
                == enc_hash_vec(ids_of(w.receipts)).len() + enc_ow2_vec(w.receipts_outcome).len()
                + enc_final_status(w.status).len() && prefix_of(
                enc_tx1(w.transaction),
                data@.skip(p3 as int),
            ) by {
                lemma_td_split(
                    enc_hash_vec(ids_of(w.receipts)),
                    enc_ow2_vec(w.receipts_outcome),
                    enc_final_status(w.status),
                    enc_tx1(w.transaction),
                    enc_ow2(w.transaction_outcome),
                    data@,
                );
            }
        }
        let (tx, p4) = match read_tx1(data, p3) {
            None => {
                return None;
            },
            Some(x) => x,
        };
        proof {
            assert forall|w: SpecTransactionDetails|
                td_v0220_ok(w) && data@ == #[trigger] enc_td_v0220(w) implies tx@ == w.transaction && p4
                == enc_hash_vec(ids_of(w.receipts)).len() + enc_ow2_vec(w.receipts_outcome).len()
                + enc_final_status(w.status).len() + enc_tx1(w.transaction).len() && prefix_of(
                enc_ow2(w.transaction_outcome),
                data@.skip(p4 as int),
            ) by {
                lemma_td_split(
                    enc_hash_vec(ids_of(w.receipts)),
                    enc_ow2_vec(w.receipts_outcome),
                    enc_final_status(w.status),
                    enc_tx1(w.transaction),
                    enc_ow2(w.transaction_outcome),
                    data@,
                );
            }
        }
        let (txo, p5) = match read_ow2(data, p4) {
            None => {
                return None;
            },
            Some(x) => x,
        };
        proof {
            assert forall|w: SpecTransactionDetails|
                td_v0220_ok(w) && data@ == #[trigger] enc_td_v0220(w) implies txo@ == w.transaction_outcome && p5
                == data@.len() by {
                lemma_td_split(
                    enc_hash_vec(ids_of(w.receipts)),
                    enc_ow2_vec(w.receipts_outcome),
                    enc_final_status(w.status),
                    enc_tx1(w.transaction),
                    enc_ow2(w.transaction_outcome),
                    data@,
                );
            }
        }
        if p5 != data.len() {
            return None;
        }
        let v = TransactionDetailsV0220 {
            receipts: rids,
            receipts_outcome: ov,
            status: st,
            transaction: tx,
            transaction_outcome: txo,
        };
        proof {
            lemma_ids_wrap(rids@);
            assert forall|i: int| 0 <= i < v@.receipts.len() implies #[trigger] v@.receipts[i].priority
                == 0 by {}
            assert(data@.subrange(0, p5 as int) =~= data@.subrange(0, p1 as int) + data@.subrange(
                p1 as int,
                p2 as int,
            ) + data@.subrange(p2 as int, p3 as int) + data@.subrange(p3 as int, p4 as int)
                + data@.subrange(p4 as int, p5 as int));
            assert(data@.subrange(0, p5 as int) =~= data@);
            assert(enc_td_v0220(v@) == data@);
            assert forall|w: SpecTransactionDetails|
                td_v0220_ok(w) && data@ == #[trigger] enc_td_v0220(w) implies v@ == w by {
                lemma_wrap_ids(w.receipts);
                assert(v@ =~= w);
            }
        }
        Some(v)
    }

    /// Encodes this historical shape; used to produce stored payloads of
    /// the old form.
    pub fn borsh_serialize(&self) -> (r: Vec<u8>)
        requires
            td_v0220_ok(self@),
        ensures
            r@ == enc_td_v0220(self@),
    {
        proof {
            lemma_ids_wrap(self.receipts@);
        }
        let mut out: Vec<u8> = Vec::new();
        write_hash_vec(&mut out, &self.receipts);
        write_ow2_vec(&mut out, &self.receipts_outcome);
        write_final_status(&mut out, &self.status);
        write_tx1(&mut out, &self.transaction);
        write_ow2(&mut out, &self.transaction_outcome);
        proof {
            assert(out@ =~= enc_td_v0220(self@));
        }
        out
    }

    /// Projects this historical record into the current shape. Every field
    /// both shapes share is kept as it is; the fields this shape lacked
    /// read as zero.
    pub fn to_latest(self) -> (r: TransactionDetails)
        ensures
            r@ == self@,
    {
        let receipts = wrap_receipts(&self.receipts);
        let r = TransactionDetails {
            receipts,
            receipts_outcome: self.receipts_outcome,
            status: self.status,
            transaction: self.transaction,
            transaction_outcome: self.transaction_outcome,
        };
        proof {
            assert(r@ =~= self@);
        }
        r
    }
}
/// The newest historical record shape: the transaction gained its nonce; only the receipt entries still lack the priority of the current shape.
#[derive(Clone, PartialEq, Debug)]
pub struct TransactionDetailsV0230 {
    pub receipts: Vec<CryptoHash>,
    pub receipts_outcome: Vec<ExecutionOutcomeWithIdView>,
    pub status: FinalExecutionStatus,
    pub transaction: SignedTransactionView,
    pub transaction_outcome: ExecutionOutcomeWithIdView,
}

impl View for TransactionDetailsV0230 {
    type V = SpecTransactionDetails;

    open spec fn view(&self) -> SpecTransactionDetails {
        SpecTransactionDetails {
            receipts: wrap_receipt_ids(self.receipts@),
            receipts_outcome: view_outcomes(self.receipts_outcome@),
            status: self.status@,
            transaction: self.transaction@,
            transaction_outcome: self.transaction_outcome@,
        }
    }
}

impl TransactionDetailsV0230 {
    /// Decodes this historical shape exactly: succeeds precisely on enc_td_v0230
    /// of a well-sized record, consuming the whole input.
    pub fn borsh_deserialize(data: &Vec<u8>) -> (r: Option<TransactionDetailsV0230>)
        ensures
            match r {
                Some(v) => td_v0230_ok(v@) && enc_td_v0230(v@) == data@,
                None => true,
            },
            forall|w: SpecTransactionDetails|
                td_v0230_ok(w) && data@ == #[trigger] enc_td_v0230(w) ==> r is Some && r->Some_0@ == w,
    {
        proof {
            assert(data@.skip(0) =~= data@);
            assert forall|w: SpecTransactionDetails|
                td_v0230_ok(w) && data@ == #[trigger] enc_td_v0230(w) implies ids_of(w.receipts).len()
                < u32_bound() && prefix_of(enc_hash_vec(ids_of(w.receipts)), data@.skip(0)) by {
                lemma_td_split(
                    enc_hash_vec(ids_of(w.receipts)),
                    enc_ow2_vec(w.receipts_outcome),
                    enc_final_status(w.status),
                    enc_tx2(w.transaction),
                    enc_ow2(w.transaction_outcome),
                    data@,
                );
            }
        }
        let (rids, p1) = match read_hash_vec(data, 0) {
            None => {
                return None;
            },
            Some(x) => x,
        };
        proof {
            assert forall|w: SpecTransactionDetails|
                td_v0230_ok(w) && data@ == #[trigger] enc_td_v0230(w) implies rids@ == ids_of(w.receipts) && p1
                == enc_hash_vec(ids_of(w.receipts)).len() && prefix_of(
                enc_ow2_vec(w.receipts_outcome),
                data@.skip(p1 as int),
            ) by {
                lemma_td_split(
                    enc_hash_vec(ids_of(w.receipts)),
                    enc_ow2_vec(w.receipts_outcome),
                    enc_final_status(w.status),
                    enc_tx2(w.transaction),
                    enc_ow2(w.transaction_outcome),
                    data@,
                );
            }
        }
        let (ov, p2) = match read_ow2_vec(data, p1) {
            None => {
                return None;
            },
            Some(x) => x,
        };
        proof {
            assert forall|w: SpecTransactionDetails|
                td_v0230_ok(w) && data@ == #[trigger] enc_td_v0230(w) implies view_outcomes(ov@)
                == w.receipts_outcome && p2 == enc_hash_vec(ids_of(w.receipts)).len() + enc_ow2_vec(
                w.receipts_outcome,
            ).len() && prefix_of(enc_final_status(w.status), data@.skip(p2 as int)) by {
                lemma_td_split(
                    enc_hash_vec(ids_of(w.receipts)),
                    enc_ow2_vec(w.receipts_outcome),
                    enc_final_status(w.status),
                    enc_tx2(w.transaction),
                    enc_ow2(w.transaction_outcome),
                    data@,
                );
            }
        }
        let (st, p3) = match read_final_status(data, p2) {
            None => {
                return None;
            },
            Some(x) => x,
        };
        proof {
            assert forall|w: SpecTransactionDetails|
                td_v0230_ok(w) && data@ == #[trigger] enc_td_v0230(w) implies st@ == w.status && p3
                == enc_hash_vec(ids_of(w.receipts)).len() + enc_ow2_vec(w.receipts_outcome).len()
                + enc_final_status(w.status).len() && prefix_of(
                enc_tx2(w.transaction),
                data@.skip(p3 as int),
            ) by {
                lemma_td_split(
                    enc_hash_vec(ids_of(w.receipts)),
                    enc_ow2_vec(w.receipts_outcome),
                    enc_final_status(w.status),
                    enc_tx2(w.transaction),
                    enc_ow2(w.transaction_outcome),
                    data@,
                );
            }
        }
        let (tx, p4) = match read_tx2(data, p3) {
            None => {
                return None;
            },
            Some(x) => x,
        };
        proof {
            assert forall|w: SpecTransactionDetails|
                td_v0230_ok(w) && data@ == #[trigger] enc_td_v0230(w) implies tx@ == w.transaction && p4
                == enc_hash_vec(ids_of(w.receipts)).len() + enc_ow2_vec(w.receipts_outcome).len()
                + enc_final_status(w.status).len() + enc_tx2(w.transaction).len() && prefix_of(
                enc_ow2(w.transaction_outcome),
                data@.skip(p4 as int),
            ) by {
                lemma_td_split(
                    enc_hash_vec(ids_of(w.receipts)),
                    enc_ow2_vec(w.receipts_outcome),
                    enc_final_status(w.status),
                    enc_tx2(w.transaction),
                    enc_ow2(w.transaction_outcome),
                    data@,
                );
            }
        }
        let (txo, p5) = match read_ow2(data, p4) {
            None => {
                return None;
            },
            Some(x) => x,
        };
        proof {
            assert forall|w: SpecTransactionDetails|
                td_v0230_ok(w) && data@ == #[trigger] enc_td_v0230(w) implies txo@ == w.transaction_outcome && p5
                == data@.len() by {
                lemma_td_split(
                    enc_hash_vec(ids_of(w.receipts)),
                    enc_ow2_vec(w.receipts_outcome),
                    enc_final_status(w.status),
                    enc_tx2(w.transaction),
                    enc_ow2(w.transaction_outcome),
                    data@,
                );
            }
        }
        if p5 != data.len() {
            return None;
        }
        let v = TransactionDetailsV0230 {
            receipts: rids,
            receipts_outcome: ov,
            status: st,
            transaction: tx,
            transaction_outcome: txo,
        };
        proof {
            lemma_ids_wrap(rids@);
            assert forall|i: int| 0 <= i < v@.receipts.len() implies #[trigger] v@.receipts[i].priority
                == 0 by {}
            assert(data@.subrange(0, p5 as int) =~= data@.subrange(0, p1 as int) + data@.subrange(
                p1 as int,
                p2 as int,
            ) + data@.subrange(p2 as int, p3 as int) + data@.subrange(p3 as int, p4 as int)
                + data@.subrange(p4 as int, p5 as int));
            assert(data@.subrange(0, p5 as int) =~= data@);
            assert(enc_td_v0230(v@) == data@);
            assert forall|w: SpecTransactionDetails|
                td_v0230_ok(w) && data@ == #[trigger] enc_td_v0230(w) implies v@ == w by {
                lemma_wrap_ids(w.receipts);
                assert(v@ =~= w);
            }
        }
        Some(v)
    }

    /// Encodes this historical shape; used to produce stored payloads of
    /// the old form.
    pub fn borsh_serialize(&self) -> (r: Vec<u8>)
        requires
            td_v0230_ok(self@),
        ensures
            r@ == enc_td_v0230(self@),
    {
        proof {
            lemma_ids_wrap(self.receipts@);
        }
        let mut out: Vec<u8> = Vec::new();
        write_hash_vec(&mut out, &self.receipts);
        write_ow2_vec(&mut out, &self.receipts_outcome);
        write_final_status(&mut out, &self.status);
        write_tx2(&mut out, &self.transaction);
        write_ow2(&mut out, &self.transaction_outcome);
        proof {
            assert(out@ =~= enc_td_v0230(self@));
        }
        out
    }

    /// Projects this historical record into the current shape. Every field
    /// both shapes share is kept as it is; the fields this shape lacked
    /// read as zero.
    pub fn to_latest(self) -> (r: TransactionDetails)
        ensures
            r@ == self@,
    {
        let receipts = wrap_receipts(&self.receipts);
        let r = TransactionDetails {
            receipts,
            receipts_outcome: self.receipts_outcome,
            status: self.status,
            transaction: self.transaction,
            transaction_outcome: self.transaction_outcome,
        };
        proof {
            assert(r@ =~= self@);
        }
        r
    }
}

} // verus!
