//! Lossless wire representation of transactions and graph snapshots.
//!
//! The format is length-prefixed and byte-ordered: integers as eight
//! little-endian bytes, strings as a byte count followed by UTF-8, lists as
//! an element count followed by the elements, and single-byte tags for
//! status and the optional contract. [`lemma_transaction_round_trip`] shows
//! that decoding an encoding yields the original transaction.

use vstd::bytes::{spec_u64_from_le_bytes, spec_u64_to_le_bytes};
use vstd::prelude::*;
use vstd::utf8::{decode_utf8, encode_utf8, valid_utf8};

use crate::txn::{ContractRef, ContractView, Transaction, TxStatus, TxView};

verus! {

/// Eight little-endian bytes.
pub open spec fn enc_u64(v: u64) -> Seq<u8> {
    spec_u64_to_le_bytes(v)
}

/// Byte count, then the bytes.
pub open spec fn enc_bytes(b: Seq<u8>) -> Seq<u8> {
    enc_u64(b.len() as u64) + b
}

/// UTF-8 byte count, then the UTF-8 bytes.
pub open spec fn enc_str(s: Seq<char>) -> Seq<u8> {
    enc_bytes(encode_utf8(s))
}

/// The strings of a list, one after another.
pub open spec fn enc_strs(items: Seq<Seq<char>>) -> Seq<u8>
    decreases items.len(),
{
    if items.len() == 0 {
        Seq::empty()
    } else {
        enc_str(items[0]) + enc_strs(items.drop_first())
    }
}

/// Element count, then the strings.
pub open spec fn enc_str_list(items: Seq<Seq<char>>) -> Seq<u8> {
    enc_u64(items.len() as u64) + enc_strs(items)
}

/// One tag byte for the status.
pub open spec fn enc_status(st: TxStatus) -> Seq<u8> {
    match st {
        TxStatus::Valid => seq![0u8],
        TxStatus::Revoked => seq![1u8],
    }
}

/// One tag byte, then for a present contract its name and payload.
pub open spec fn enc_contract(c: Option<ContractView>) -> Seq<u8> {
    match c {
        None => seq![0u8],
        Some(cv) => seq![1u8] + enc_str(cv.name) + enc_str(cv.payload),
    }
}

/// The full wire form of a transaction.
pub open spec fn enc_tx(t: TxView) -> Seq<u8> {
    enc_str(t.id) + enc_u64(t.timestamp) + enc_str(t.sender) + enc_str(t.receiver) + enc_u64(
        t.amount,
    ) + enc_bytes(t.signature) + enc_str_list(t.parents) + enc_bytes(t.public_key) + enc_status(
        t.status,
    ) + seq![t.priority] + enc_contract(t.contract)
}

/// Every length that the format prefixes fits in its eight-byte counter.
pub open spec fn encodable_tx(t: TxView) -> bool {
    &&& encode_utf8(t.id).len() <= u64::MAX
    &&& encode_utf8(t.sender).len() <= u64::MAX
    &&& encode_utf8(t.receiver).len() <= u64::MAX
    &&& t.signature.len() <= u64::MAX
    &&& t.public_key.len() <= u64::MAX
    &&& t.parents.len() <= u64::MAX
    &&& forall|i: int|
        0 <= i < t.parents.len() ==> encode_utf8(#[trigger] t.parents[i]).len() <= u64::MAX
    &&& match t.contract {
        Some(c) => encode_utf8(c.name).len() <= u64::MAX && encode_utf8(c.payload).len()
            <= u64::MAX,
        None => true,
    }
}

/// Reads eight little-endian bytes at `pos`.
pub open spec fn dec_u64(buf: Seq<u8>, pos: int) -> Option<(u64, int)> {
    if 0 <= pos && pos + 8 <= buf.len() {
        Some((spec_u64_from_le_bytes(buf.subrange(pos, pos + 8)), pos + 8))
    } else {
        None
    }
}

/// Reads one byte at `pos`.
pub open spec fn dec_u8(buf: Seq<u8>, pos: int) -> Option<(u8, int)> {
    if 0 <= pos && pos + 1 <= buf.len() {
        Some((buf[pos], pos + 1))
    } else {
        None
    }
}

/// Reads a length-prefixed byte string at `pos`.
pub open spec fn dec_bytes(buf: Seq<u8>, pos: int) -> Option<(Seq<u8>, int)> {
    match dec_u64(buf, pos) {
        None => None,
        Some((n, p)) => if p + n <= buf.len() {
            Some((buf.subrange(p, p + n), p + n))
        } else {
            None
        },
    }
}

/// Reads a length-prefixed UTF-8 string at `pos`.
pub open spec fn dec_str(buf: Seq<u8>, pos: int) -> Option<(Seq<char>, int)> {
    match dec_bytes(buf, pos) {
        None => None,
        Some((b, p)) => if valid_utf8(b) {
            Some((decode_utf8(b), p))
        } else {
            None
        },
    }
}

/// Reads `count` strings one after another starting at `pos`.
pub open spec fn dec_strs(buf: Seq<u8>, pos: int, count: nat) -> Option<(Seq<Seq<char>>, int)>
    decreases count,
{
    if count == 0 {
        Some((Seq::empty(), pos))
    } else {
        match dec_str(buf, pos) {
            None => None,
            Some((s, p)) => match dec_strs(buf, p, (count - 1) as nat) {
                None => None,
                Some((rest, p2)) => Some((seq![s] + rest, p2)),
            },
        }
    }
}

/// Reads a count-prefixed list of strings at `pos`.
pub open spec fn dec_str_list(buf: Seq<u8>, pos: int) -> Option<(Seq<Seq<char>>, int)> {
    match dec_u64(buf, pos) {
        None => None,
        Some((n, p)) => dec_strs(buf, p, n as nat),
    }
}

/// Reads a status tag at `pos`.
pub open spec fn dec_status(buf: Seq<u8>, pos: int) -> Option<(TxStatus, int)> {
    match dec_u8(buf, pos) {
        None => None,
        Some((b, p)) => if b == 0 {
            Some((TxStatus::Valid, p))
        } else if b == 1 {
            Some((TxStatus::Revoked, p))
        } else {
            None
        },
    }
}

/// Reads a contract tag and, when present, the contract at `pos`.
pub open spec fn dec_contract(buf: Seq<u8>, pos: int) -> Option<(Option<ContractView>, int)> {
    match dec_u8(buf, pos) {
        None => None,
        Some((b, p)) => if b == 0 {
            Some((None, p))
        } else if b == 1 {
            match dec_str(buf, p) {
                None => None,
                Some((name, p2)) => match dec_str(buf, p2) {
                    None => None,
                    Some((payload, p3)) => Some((Some(ContractView { name, payload }), p3)),
                },
            }
        } else {
            None
        },
    }
}

/// Reads a whole transaction at `pos`.
pub open spec fn dec_tx(buf: Seq<u8>, pos: int) -> Option<(TxView, int)> {
    match dec_str(buf, pos) {
        None => None,
        Some((id, p1)) => match dec_u64(buf, p1) {
            None => None,
            Some((timestamp, p2)) => match dec_str(buf, p2) {
                None => None,
                Some((sender, p3)) => match dec_str(buf, p3) {
                    None => None,
                    Some((receiver, p4)) => match dec_u64(buf, p4) {
                        None => None,
                        Some((amount, p5)) => match dec_bytes(buf, p5) {
                            None => None,
                            Some((signature, p6)) => match dec_str_list(buf, p6) {
                                None => None,
                                Some((parents, p7)) => match dec_bytes(buf, p7) {
                                    None => None,
                                    Some((public_key, p8)) => match dec_status(buf, p8) {
                                        None => None,
                                        Some((status, p9)) => match dec_u8(buf, p9) {
                                            None => None,
                                            Some((priority, p10)) => match dec_contract(
                                                buf,
                                                p10,
                                            ) {
                                                None => None,
                                                Some((contract, p11)) => Some(
                                                    (
                                                        TxView {
                                                            id,
                                                            timestamp,
                                                            sender,
                                                            receiver,
                                                            amount,
                                                            signature,
                                                            parents,
                                                            public_key,
                                                            status,
                                                            priority,
                                                            contract,
                                                        },
                                                        p11,
                                                    ),
                                                ),
                                            },
                                        },
                                    },
                                },
                            },
                        },
                    },
                },
            },
        },
    }
}

/// Decoding eight bytes that encode `v` yields `v`.
proof fn lemma_dec_enc_u64(buf: Seq<u8>, pos: int, v: u64)
    requires
        0 <= pos,
        pos + 8 <= buf.len(),
        buf.subrange(pos, pos + 8) == enc_u64(v),
    ensures
        dec_u64(buf, pos) == Some((v, pos + 8)),
{
    vstd::bytes::lemma_auto_spec_u64_to_from_le_bytes();
}

/// Decoding a byte-string encoding yields the byte string.
proof fn lemma_dec_enc_bytes(buf: Seq<u8>, pos: int, b: Seq<u8>)
    requires
        0 <= pos,
        b.len() <= u64::MAX,
        pos + enc_bytes(b).len() <= buf.len(),
        buf.subrange(pos, pos + enc_bytes(b).len() as int) == enc_bytes(b),
    ensures
        dec_bytes(buf, pos) == Some((b, pos + 8 + b.len())),
        enc_bytes(b).len() == 8 + b.len(),
{
    vstd::bytes::lemma_auto_spec_u64_to_from_le_bytes();
    let n: u64 = b.len() as u64;
    let e = enc_bytes(b);
    assert(enc_u64(n).len() == 8);
    assert(e.len() == 8 + b.len());
    assert(buf.subrange(pos, pos + 8) =~= enc_u64(n)) by {
        assert forall|i: int| 0 <= i < 8 implies buf.subrange(pos, pos + 8)[i] == enc_u64(n)[i] by {
            assert(buf.subrange(pos, pos + e.len() as int)[i] == e[i]);
        }
    }
    lemma_dec_enc_u64(buf, pos, n);
    assert(n as int == b.len());
    assert(buf.subrange(pos + 8, pos + 8 + b.len()) =~= b) by {
        assert forall|i: int| 0 <= i < b.len() implies buf.subrange(
            pos + 8,
            pos + 8 + b.len() as int,
        )[i] == b[i] by {
            assert(buf.subrange(pos, pos + e.len() as int)[8 + i] == e[8 + i]);
        }
    }
}

/// Decoding a string encoding yields the string.
proof fn lemma_dec_enc_str(buf: Seq<u8>, pos: int, s: Seq<char>)
    requires
        0 <= pos,
        encode_utf8(s).len() <= u64::MAX,
        pos + enc_str(s).len() <= buf.len(),
        buf.subrange(pos, pos + enc_str(s).len() as int) == enc_str(s),
    ensures
        dec_str(buf, pos) == Some((s, pos + 8 + encode_utf8(s).len())),
        enc_str(s).len() == 8 + encode_utf8(s).len(),
{
    broadcast use vstd::utf8::encode_utf8_valid_utf8, vstd::utf8::encode_utf8_decode_utf8;

    lemma_dec_enc_bytes(buf, pos, encode_utf8(s));
}

/// Decoding the concatenated encodings of a string list yields the list.
proof fn lemma_dec_enc_strs(buf: Seq<u8>, pos: int, items: Seq<Seq<char>>)
    requires
        0 <= pos,
        forall|i: int| 0 <= i < items.len() ==> encode_utf8(#[trigger] items[i]).len()
            <= u64::MAX,
        pos + enc_strs(items).len() <= buf.len(),
        buf.subrange(pos, pos + enc_strs(items).len() as int) == enc_strs(items),
    ensures
        dec_strs(buf, pos, items.len() as nat) == Some((items, pos + enc_strs(items).len())),
    decreases items.len(),
{
    if items.len() == 0 {
        assert(dec_strs(buf, pos, 0nat) == Some((Seq::<Seq<char>>::empty(), pos)));
        assert(items =~= Seq::<Seq<char>>::empty());
    } else {
        let h = items[0];
        let eh = enc_str(h);
        let e = enc_strs(items);
        assert(e == eh + enc_strs(items.drop_first()));
        assert(buf.subrange(pos, pos + eh.len() as int) =~= eh) by {
            assert forall|i: int| 0 <= i < eh.len() implies buf.subrange(
                pos,
                pos + eh.len() as int,
            )[i] == eh[i] by {
                assert(buf.subrange(pos, pos + e.len() as int)[i] == e[i]);
            }
        }
        lemma_dec_enc_str(buf, pos, h);
        let p2 = pos + eh.len();
        let rest = enc_strs(items.drop_first());
        assert(buf.subrange(p2, p2 + rest.len() as int) =~= rest) by {
            assert forall|i: int| 0 <= i < rest.len() implies buf.subrange(
                p2,
                p2 + rest.len() as int,
            )[i] == rest[i] by {
                assert(buf.subrange(pos, pos + e.len() as int)[eh.len() + i] == e[eh.len() + i]);
            }
        }
        assert forall|i: int| 0 <= i < items.drop_first().len() implies encode_utf8(
            #[trigger] items.drop_first()[i],
        ).len() <= u64::MAX by {
            assert(items.drop_first()[i] == items[i + 1]);
        }
        lemma_dec_enc_strs(buf, p2, items.drop_first());
        assert(seq![h] + items.drop_first() =~= items);
    }
}

/// Decoding a string-list encoding yields the list.
proof fn lemma_dec_enc_str_list(buf: Seq<u8>, pos: int, items: Seq<Seq<char>>)
    requires
        0 <= pos,
        items.len() <= u64::MAX,
        forall|i: int| 0 <= i < items.len() ==> encode_utf8(#[trigger] items[i]).len()
            <= u64::MAX,
        pos + enc_str_list(items).len() <= buf.len(),
        buf.subrange(pos, pos + enc_str_list(items).len() as int) == enc_str_list(items),
    ensures
        dec_str_list(buf, pos) == Some((items, pos + enc_str_list(items).len())),
{
    vstd::bytes::lemma_auto_spec_u64_to_from_le_bytes();
    let n: u64 = items.len() as u64;
    let e = enc_str_list(items);
    assert(e == enc_u64(n) + enc_strs(items));
    assert(buf.subrange(pos, pos + 8) =~= enc_u64(n)) by {
        assert forall|i: int| 0 <= i < 8 implies buf.subrange(pos, pos + 8)[i] == enc_u64(n)[i] by {
            assert(buf.subrange(pos, pos + e.len() as int)[i] == e[i]);
        }
    }
    lemma_dec_enc_u64(buf, pos, n);
    let p2 = pos + 8;
    let rest = enc_strs(items);
    assert(buf.subrange(p2, p2 + rest.len() as int) =~= rest) by {
        assert forall|i: int| 0 <= i < rest.len() implies buf.subrange(
            p2,
            p2 + rest.len() as int,
        )[i] == rest[i] by {
            assert(buf.subrange(pos, pos + e.len() as int)[8 + i] == e[8 + i]);
        }
    }
    lemma_dec_enc_strs(buf, p2, items);
}

/// Round trip: decoding the wire form of a transaction yields that
/// transaction, every field preserved, with the whole buffer consumed.
#[verifier::rlimit(100)]
pub proof fn lemma_transaction_round_trip(t: TxView)
    requires
        encodable_tx(t),
    ensures
        dec_tx(enc_tx(t), 0) == Some((t, enc_tx(t).len() as int)),
{
    vstd::bytes::lemma_auto_spec_u64_to_from_le_bytes();
    let buf = enc_tx(t);
    let e1 = enc_str(t.id);
    let e2 = enc_u64(t.timestamp);
    let e3 = enc_str(t.sender);
    let e4 = enc_str(t.receiver);
    let e5 = enc_u64(t.amount);
    let e6 = enc_bytes(t.signature);
    let e7 = enc_str_list(t.parents);
    let e8 = enc_bytes(t.public_key);
    let e9 = enc_status(t.status);
    let e10 = seq![t.priority];
    let e11 = enc_contract(t.contract);
    let p1 = e1.len() as int;
    let p2 = p1 + e2.len();
    let p3 = p2 + e3.len();
    let p4 = p3 + e4.len();
    let p5 = p4 + e5.len();
    let p6 = p5 + e6.len();
    let p7 = p6 + e7.len();
    let p8 = p7 + e8.len();
    let p9 = p8 + e9.len();
    let p10 = p9 + e10.len();
    let p11 = p10 + e11.len();
    assert(buf.len() == p11);
    assert(buf.subrange(0, p1) =~= e1);
    assert(buf.subrange(p1, p2) =~= e2);
    assert(buf.subrange(p2, p3) =~= e3);
    assert(buf.subrange(p3, p4) =~= e4);
    assert(buf.subrange(p4, p5) =~= e5);
    assert(buf.subrange(p5, p6) =~= e6);
    assert(buf.subrange(p6, p7) =~= e7);
    assert(buf.subrange(p7, p8) =~= e8);
    assert(buf.subrange(p8, p9) =~= e9);
    assert(buf.subrange(p9, p10) =~= e10);
    assert(buf.subrange(p10, p11) =~= e11);
    lemma_dec_enc_str(buf, 0, t.id);
    lemma_dec_enc_u64(buf, p1, t.timestamp);
    lemma_dec_enc_str(buf, p2, t.sender);
    lemma_dec_enc_str(buf, p3, t.receiver);
    lemma_dec_enc_u64(buf, p4, t.amount);
    lemma_dec_enc_bytes(buf, p5, t.signature);
    lemma_dec_enc_str_list(buf, p6, t.parents);
    lemma_dec_enc_bytes(buf, p7, t.public_key);
    assert(dec_status(buf, p8) == Some((t.status, p9))) by {
        assert(buf[p8] == e9[0]);
    }
    assert(dec_u8(buf, p9) == Some((t.priority, p10))) by {
        assert(buf[p9] == e10[0]);
    }
    assert(dec_contract(buf, p10) == Some((t.contract, p11))) by {
        assert(buf[p10] == e11[0]);
        match t.contract {
            None => {},
            Some(c) => {
                let en = enc_str(c.name);
                let ep = enc_str(c.payload);
                assert(e11 == seq![1u8] + en + ep);
                let q1 = p10 + 1;
                let q2 = q1 + en.len();
                let q3 = q2 + ep.len();
                assert(q3 == p11);
                assert(buf.subrange(q1, q2) =~= en) by {
                    assert forall|i: int| 0 <= i < en.len() implies buf.subrange(q1, q2)[i]
                        == en[i] by {
                        assert(buf.subrange(p10, p11)[1 + i] == e11[1 + i]);
                    }
                }
                assert(buf.subrange(q2, q3) =~= ep) by {
                    assert forall|i: int| 0 <= i < ep.len() implies buf.subrange(q2, q3)[i]
                        == ep[i] by {
                        assert(buf.subrange(p10, p11)[1 + en.len() + i] == e11[1 + en.len() + i]);
                    }
                }
                lemma_dec_enc_str(buf, q1, c.name);
                lemma_dec_enc_str(buf, q2, c.payload);
            },
        }
    }
}

/// Relies on String::from_utf8: accepts exactly the byte strings that are
/// valid UTF-8, decoding them per the UTF-8 specification.
#[verifier::external_body]
pub(crate) fn string_from_utf8(bytes: Vec<u8>) -> (r: Option<String>)
    ensures
        r matches Some(s) ==> valid_utf8(bytes@) && s@ == decode_utf8(bytes@),
        r is None ==> !valid_utf8(bytes@),
{
    String::from_utf8(bytes).ok()
}

/// Appends eight little-endian bytes.
fn push_u64(out: &mut Vec<u8>, v: u64)
    ensures
        final(out)@ == old(out)@ + enc_u64(v),
{
    let mut bytes = vstd::bytes::u64_to_le_bytes(v);
    out.append(&mut bytes);
}

/// Appends a length-prefixed byte string.
fn push_bytes(out: &mut Vec<u8>, b: &Vec<u8>)
    ensures
        final(out)@ == old(out)@ + enc_bytes(b@),
        b@.len() <= u64::MAX,
{
    let n = b.len();
    push_u64(out, n as u64);
    let mut c = crate::txn::clone_bytes(b);
    out.append(&mut c);
    proof {
        assert(out@ =~= old(out)@ + enc_bytes(b@));
    }
}

/// Appends a length-prefixed UTF-8 string.
fn push_str(out: &mut Vec<u8>, s: &String)
    ensures
        final(out)@ == old(out)@ + enc_str(s@),
        encode_utf8(s@).len() <= u64::MAX,
{
    let bytes = vstd::slice::slice_to_vec(s.as_str().as_bytes());
    push_bytes(out, &bytes);
}

/// Appending one string extends the concatenated string encoding.
proof fn lemma_enc_strs_push(items: Seq<Seq<char>>, s: Seq<char>)
    ensures
        enc_strs(items.push(s)) == enc_strs(items) + enc_str(s),
    decreases items.len(),
{
    if items.len() == 0 {
        assert(items.push(s)[0] == s);
        assert(items.push(s).drop_first() =~= Seq::<Seq<char>>::empty());
        assert(enc_strs(Seq::<Seq<char>>::empty()) =~= Seq::<u8>::empty());
        assert(enc_strs(items.push(s)) == enc_str(s) + enc_strs(items.push(s).drop_first()));
        assert(enc_str(s) + Seq::<u8>::empty() =~= enc_str(s));
        assert(enc_strs(items) + enc_str(s) =~= enc_str(s));
    } else {
        assert(items.push(s)[0] == items[0]);
        assert(items.push(s).drop_first() =~= items.drop_first().push(s));
        lemma_enc_strs_push(items.drop_first(), s);
        assert(enc_strs(items.push(s)) == enc_str(items[0]) + (enc_strs(items.drop_first())
            + enc_str(s)));
        assert(enc_str(items[0]) + (enc_strs(items.drop_first()) + enc_str(s)) =~= (enc_str(
            items[0],
        ) + enc_strs(items.drop_first())) + enc_str(s));
    }
}

/// Appends a count-prefixed list of strings.
fn push_str_list(out: &mut Vec<u8>, items: &Vec<String>)
    ensures
        final(out)@ == old(out)@ + enc_str_list(items.deep_view()),
        items.deep_view().len() <= u64::MAX,
        forall|i: int|
            0 <= i < items.deep_view().len() ==> encode_utf8(
                #[trigger] items.deep_view()[i],
            ).len() <= u64::MAX,
{
    let n = items.len();
    push_u64(out, n as u64);
    let ghost base = out@;
    let mut i: usize = 0;
    proof {
        assert(items.deep_view().take(0) =~= Seq::<Seq<char>>::empty());
        assert(out@ =~= base + enc_strs(items.deep_view().take(0)));
    }
    while i < n
        invariant
            n == items@.len(),
            0 <= i <= n,
            out@ == base + enc_strs(items.deep_view().take(i as int)),
            forall|j: int|
                0 <= j < i ==> encode_utf8(#[trigger] items.deep_view()[j]).len() <= u64::MAX,
        decreases n - i,
    {
        push_str(out, &items[i]);
        proof {
            let dv = items.deep_view();
            lemma_enc_strs_push(dv.take(i as int), dv[i as int]);
            assert(dv.take(i as int).push(dv[i as int]) =~= dv.take(i as int + 1));
            assert(out@ =~= base + enc_strs(dv.take(i as int + 1)));
        }
        i = i + 1;
    }
    proof {
        assert(items.deep_view().take(n as int) =~= items.deep_view());
        assert(out@ =~= old(out)@ + enc_str_list(items.deep_view()));
    }
}

/// Serializes a transaction to its wire form.
pub fn serialize_transaction(tx: &Transaction) -> (r: Vec<u8>)
    ensures
        r@ == enc_tx(tx@),
        encodable_tx(tx@),
{
    let mut out: Vec<u8> = Vec::new();
    push_str(&mut out, &tx.id);
    push_u64(&mut out, tx.timestamp);
    push_str(&mut out, &tx.sender);
    push_str(&mut out, &tx.receiver);
    push_u64(&mut out, tx.amount);
    push_bytes(&mut out, &tx.signature);
    push_str_list(&mut out, &tx.parents);
    push_bytes(&mut out, &tx.public_key);
    match tx.status {
        TxStatus::Valid => out.push(0u8),
        TxStatus::Revoked => out.push(1u8),
    }
    out.push(tx.priority);
    match &tx.contract {
        None => out.push(0u8),
        Some(c) => {
            out.push(1u8);
            push_str(&mut out, &c.name);
            push_str(&mut out, &c.payload);
        },
    }
    proof {
        assert(out@ =~= enc_tx(tx@));
    }
    out
}

/// Reads eight little-endian bytes.
fn read_u64(buf: &Vec<u8>, pos: usize) -> (r: Option<(u64, usize)>)
    ensures
        r matches Some(x) ==> dec_u64(buf@, pos as int) == Some((x.0, x.1 as int)) && x.1
            <= buf@.len(),
        r is None ==> dec_u64(buf@, pos as int) is None,
{
    let len = buf.len();
    if pos >= len || len - pos < 8 {
        return None;
    }
    let s = vstd::slice::slice_subrange(buf.as_slice(), pos, pos + 8);
    Some((vstd::bytes::u64_from_le_bytes(s), pos + 8))
}

/// Reads one byte.
fn read_u8(buf: &Vec<u8>, pos: usize) -> (r: Option<(u8, usize)>)
    ensures
        r matches Some(x) ==> dec_u8(buf@, pos as int) == Some((x.0, x.1 as int)) && x.1
            <= buf@.len(),
        r is None ==> dec_u8(buf@, pos as int) is None,
{
    if pos >= buf.len() {
        return None;
    }
    Some((buf[pos], pos + 1))
}

/// Reads a length-prefixed byte string.
fn read_bytes(buf: &Vec<u8>, pos: usize) -> (r: Option<(Vec<u8>, usize)>)
    ensures
        r matches Some(x) ==> dec_bytes(buf@, pos as int) matches Some(y) && y.0 == x.0@ && y.1
            == x.1 as int && x.1 <= buf@.len(),
        r is None ==> dec_bytes(buf@, pos as int) is None,
{
    let (n, p) = match read_u64(buf, pos) {
        None => {
            return None;
        },
        Some(x) => x,
    };
    let rem: u64 = (buf.len() - p) as u64;
    if n > rem {
        return None;
    }
    let end = p + (n as usize);
    let s = vstd::slice::slice_subrange(buf.as_slice(), p, end);
    Some((vstd::slice::slice_to_vec(s), end))
}

/// Reads a length-prefixed UTF-8 string.
fn read_str(buf: &Vec<u8>, pos: usize) -> (r: Option<(String, usize)>)
    ensures
        r matches Some(x) ==> dec_str(buf@, pos as int) matches Some(y) && y.0 == x.0@ && y.1
            == x.1 as int && x.1 <= buf@.len(),
        r is None ==> dec_str(buf@, pos as int) is None,
{
    let (b, p) = match read_bytes(buf, pos) {
        None => {
            return None;
        },
        Some(x) => x,
    };
    let ghost bv = b@;
    match string_from_utf8(b) {
        None => None,
        Some(s) => Some((s, p)),
    }
}

/// Reads a count-prefixed list of strings.
fn read_str_list(buf: &Vec<u8>, pos: usize) -> (r: Option<(Vec<String>, usize)>)
    ensures
        r matches Some(x) ==> dec_str_list(buf@, pos as int) matches Some(y) && y.0
            == x.0.deep_view() && y.1 == x.1 as int && x.1 <= buf@.len(),
        r is None ==> dec_str_list(buf@, pos as int) is None,
{
    let (n, p0) = match read_u64(buf, pos) {
        None => {
            return None;
        },
        Some(x) => x,
    };
    let mut items: Vec<String> = Vec::new();
    let mut p = p0;
    let mut i: u64 = 0;
    proof {
        assert(items.deep_view() =~= Seq::<Seq<char>>::empty());
    }
    while i < n
        invariant
            p <= buf@.len(),
            0 <= i <= n,
            dec_str_list(buf@, pos as int) == match dec_strs(
                buf@,
                p as int,
                (n - i) as nat,
            ) {
                None => None::<(Seq<Seq<char>>, int)>,
                Some((rest, pe)) => Some((items.deep_view() + rest, pe)),
            },
        decreases n - i,
    {
        let ghost items0 = items.deep_view();
        let ghost pprev = p as int;
        let s = match read_str(buf, p) {
            None => {
                return None;
            },
            Some(x) => {
                p = x.1;
                x.0
            },
        };
        items.push(s);
        proof {
            assert(items.deep_view() =~= items0.push(items.deep_view()[items0.len() as int]));
            let sv = items.deep_view()[items0.len() as int];
            assert(dec_str(buf@, pprev) == Some((sv, p as int)));
            assert forall|rest: Seq<Seq<char>>| true implies items0 + (seq![sv] + rest) =~= items0.push(
                sv,
            ) + rest by {}
        }
        i = i + 1;
    }
    proof {
        assert(dec_strs(buf@, p as int, 0nat) == Some((Seq::<Seq<char>>::empty(), p as int)));
        assert(items.deep_view() + Seq::<Seq<char>>::empty() =~= items.deep_view());
    }
    Some((items, p))
}

/// Reads a status tag.
fn read_status(buf: &Vec<u8>, pos: usize) -> (r: Option<(TxStatus, usize)>)
    ensures
        r matches Some(x) ==> dec_status(buf@, pos as int) == Some((x.0, x.1 as int)) && x.1
            <= buf@.len(),
        r is None ==> dec_status(buf@, pos as int) is None,
{
    let (b, p) = match read_u8(buf, pos) {
        None => {
            return None;
        },
        Some(x) => x,
    };
    if b == 0 {
        Some((TxStatus::Valid, p))
    } else if b == 1 {
        Some((TxStatus::Revoked, p))
    } else {
        None
    }
}

/// Reads a contract tag and contract.
fn read_contract(buf: &Vec<u8>, pos: usize) -> (r: Option<(Option<ContractRef>, usize)>)
    ensures
        r matches Some(x) ==> dec_contract(buf@, pos as int) matches Some(y) && y.1 == x.1 as int
            && x.1 <= buf@.len() && y.0 == match x.0 {
            None => None::<ContractView>,
            Some(c) => Some(c@),
        },
        r is None ==> dec_contract(buf@, pos as int) is None,
{
    let (b, p) = match read_u8(buf, pos) {
        None => {
            return None;
        },
        Some(x) => x,
    };
    if b == 0 {
        Some((None, p))
    } else if b == 1 {
        let (name, p2) = match read_str(buf, p) {
            None => {
                return None;
            },
            Some(x) => x,
        };
        let (payload, p3) = match read_str(buf, p2) {
            None => {
                return None;
            },
            Some(x) => x,
        };
        Some((Some(ContractRef { name, payload }), p3))
    } else {
        None
    }
}

/// Deserializes a transaction from its wire form; the whole buffer must be
/// consumed.
pub fn deserialize_transaction(buf: &Vec<u8>) -> (r: Option<Transaction>)
    ensures
        match dec_tx(buf@, 0) {
            Some(y) => if y.1 == buf@.len() {
                r matches Some(d) && d@ == y.0
            } else {
                r is None
            },
            None => r is None,
        },
{
    let (id, p1) = match read_str(buf, 0) {
        None => {
            return None;
        },
        Some(x) => x,
    };
    let (timestamp, p2) = match read_u64(buf, p1) {
        None => {
            return None;
        },
        Some(x) => x,
    };
    let (sender, p3) = match read_str(buf, p2) {
        None => {
            return None;
        },
        Some(x) => x,
    };
    let (receiver, p4) = match read_str(buf, p3) {
        None => {
            return None;
        },
        Some(x) => x,
    };
    let (amount, p5) = match read_u64(buf, p4) {
        None => {
            return None;
        },
        Some(x) => x,
    };
    let (signature, p6) = match read_bytes(buf, p5) {
        None => {
            return None;
        },
        Some(x) => x,
    };
    let (parents, p7) = match read_str_list(buf, p6) {
        None => {
            return None;
        },
        Some(x) => x,
    };
    let (public_key, p8) = match read_bytes(buf, p7) {
        None => {
            return None;
        },
        Some(x) => x,
    };
    let (status, p9) = match read_status(buf, p8) {
        None => {
            return None;
        },
        Some(x) => x,
    };
    let (priority, p10) = match read_u8(buf, p9) {
        None => {
            return None;
        },
        Some(x) => x,
    };
    let (contract, p11) = match read_contract(buf, p10) {
        None => {
            return None;
        },
        Some(x) => x,
    };
    if p11 != buf.len() {
        return None;
    }
    Some(
        Transaction {
            id,
            timestamp,
            sender,
            receiver,
            amount,
            signature,
            parents,
            public_key,
            status,
            priority,
            contract,
        },
    )
}

/// Framed transactions, one after another: each as a length-prefixed byte
/// string holding its wire form.
pub open spec fn enc_tx_frames(txs: Seq<TxView>) -> Seq<u8>
    decreases txs.len(),
{
    if txs.len() == 0 {
        Seq::empty()
    } else {
        enc_bytes(enc_tx(txs[0])) + enc_tx_frames(txs.drop_first())
    }
}

/// Layer rows, one after another, each a count-prefixed id list.
pub open spec fn enc_layer_rows(lv: Seq<Seq<Seq<char>>>) -> Seq<u8>
    decreases lv.len(),
{
    if lv.len() == 0 {
        Seq::empty()
    } else {
        enc_str_list(lv[0]) + enc_layer_rows(lv.drop_first())
    }
}

/// The wire form of a graph snapshot: the stored transactions, framed, then
/// the layer sequence.
pub open spec fn enc_graph(s: Seq<TxView>, lv: Seq<Seq<Seq<char>>>) -> Seq<u8> {
    enc_u64(s.len() as u64) + enc_tx_frames(s) + enc_u64(lv.len() as u64) + enc_layer_rows(lv)
}

/// Every count and frame the snapshot format prefixes fits its counter.
pub open spec fn encodable_graph(s: Seq<TxView>, lv: Seq<Seq<Seq<char>>>) -> bool {
    &&& s.len() <= u64::MAX
    &&& forall|i: int|
        0 <= i < s.len() ==> encodable_tx(#[trigger] s[i]) && enc_tx(s[i]).len() <= u64::MAX
    &&& lv.len() <= u64::MAX
    &&& forall|l: int| 0 <= l < lv.len() ==> (#[trigger] lv[l]).len() <= u64::MAX
    &&& forall|l: int, k: int|
        0 <= l < lv.len() && 0 <= k < lv[l].len() ==> encode_utf8(#[trigger] lv[l][k]).len()
            <= u64::MAX
}

/// Reads one framed transaction: a length-prefixed byte string that must
/// hold exactly one transaction's wire form.
pub open spec fn dec_tx_frame(buf: Seq<u8>, pos: int) -> Option<(TxView, int)> {
    match dec_bytes(buf, pos) {
        None => None,
        Some((b, p)) => match dec_tx(b, 0) {
            None => None,
            Some((t, q)) => if q == b.len() {
                Some((t, p))
            } else {
                None
            },
        },
    }
}

/// Reads `count` framed transactions one after another.
pub open spec fn dec_tx_frames(buf: Seq<u8>, pos: int, count: nat) -> Option<(Seq<TxView>, int)>
    decreases count,
{
    if count == 0 {
        Some((Seq::empty(), pos))
    } else {
        match dec_tx_frame(buf, pos) {
            None => None,
            Some((t, p)) => match dec_tx_frames(buf, p, (count - 1) as nat) {
                None => None,
                Some((rest, p2)) => Some((seq![t] + rest, p2)),
            },
        }
    }
}

/// Reads `count` layer rows one after another.
pub open spec fn dec_layer_rows(buf: Seq<u8>, pos: int, count: nat) -> Option<
    (Seq<Seq<Seq<char>>>, int),
>
    decreases count,
{
    if count == 0 {
        Some((Seq::empty(), pos))
    } else {
        match dec_str_list(buf, pos) {
            None => None,
            Some((row, p)) => match dec_layer_rows(buf, p, (count - 1) as nat) {
                None => None,
                Some((rest, p2)) => Some((seq![row] + rest, p2)),
            },
        }
    }
}

/// Reads a whole graph snapshot at `pos`.
pub open spec fn dec_graph(buf: Seq<u8>, pos: int) -> Option<
    ((Seq<TxView>, Seq<Seq<Seq<char>>>), int),
> {
    match dec_u64(buf, pos) {
        None => None,
        Some((n, p1)) => match dec_tx_frames(buf, p1, n as nat) {
            None => None,
            Some((txs, p2)) => match dec_u64(buf, p2) {
                None => None,
                Some((m, p3)) => match dec_layer_rows(buf, p3, m as nat) {
                    None => None,
                    Some((lv, p4)) => Some(((txs, lv), p4)),
                },
            },
        },
    }
}

/// Appending one framed transaction extends the frame concatenation.
proof fn lemma_enc_tx_frames_push(txs: Seq<TxView>, t: TxView)
    ensures
        enc_tx_frames(txs.push(t)) == enc_tx_frames(txs) + enc_bytes(enc_tx(t)),
    decreases txs.len(),
{
    if txs.len() == 0 {
        assert(txs.push(t)[0] == t);
        assert(txs.push(t).drop_first() =~= Seq::<TxView>::empty());
        assert(enc_tx_frames(Seq::<TxView>::empty()) =~= Seq::<u8>::empty());
        assert(enc_tx_frames(txs.push(t)) == enc_bytes(enc_tx(t)) + enc_tx_frames(
            txs.push(t).drop_first(),
        ));
        assert(enc_bytes(enc_tx(t)) + Seq::<u8>::empty() =~= enc_bytes(enc_tx(t)));
        assert(enc_tx_frames(txs) + enc_bytes(enc_tx(t)) =~= enc_bytes(enc_tx(t)));
    } else {
        assert(txs.push(t)[0] == txs[0]);
        assert(txs.push(t).drop_first() =~= txs.drop_first().push(t));
        lemma_enc_tx_frames_push(txs.drop_first(), t);
        assert(enc_tx_frames(txs.push(t)) == enc_bytes(enc_tx(txs[0])) + (enc_tx_frames(
            txs.drop_first(),
        ) + enc_bytes(enc_tx(t))));
        assert(enc_bytes(enc_tx(txs[0])) + (enc_tx_frames(txs.drop_first()) + enc_bytes(
            enc_tx(t),
        )) =~= (enc_bytes(enc_tx(txs[0])) + enc_tx_frames(txs.drop_first())) + enc_bytes(
            enc_tx(t),
        ));
    }
}

/// Appending one layer row extends the row concatenation.
proof fn lemma_enc_layer_rows_push(lv: Seq<Seq<Seq<char>>>, row: Seq<Seq<char>>)
    ensures
        enc_layer_rows(lv.push(row)) == enc_layer_rows(lv) + enc_str_list(row),
    decreases lv.len(),
{
    if lv.len() == 0 {
        assert(lv.push(row)[0] == row);
        assert(lv.push(row).drop_first() =~= Seq::<Seq<Seq<char>>>::empty());
        assert(enc_layer_rows(Seq::<Seq<Seq<char>>>::empty()) =~= Seq::<u8>::empty());
        assert(enc_layer_rows(lv.push(row)) == enc_str_list(row) + enc_layer_rows(
            lv.push(row).drop_first(),
        ));
        assert(enc_str_list(row) + Seq::<u8>::empty() =~= enc_str_list(row));
        assert(enc_layer_rows(lv) + enc_str_list(row) =~= enc_str_list(row));
    } else {
        assert(lv.push(row)[0] == lv[0]);
        assert(lv.push(row).drop_first() =~= lv.drop_first().push(row));
        lemma_enc_layer_rows_push(lv.drop_first(), row);
        assert(enc_layer_rows(lv.push(row)) == enc_str_list(lv[0]) + (enc_layer_rows(
            lv.drop_first(),
        ) + enc_str_list(row)));
        assert(enc_str_list(lv[0]) + (enc_layer_rows(lv.drop_first()) + enc_str_list(row)) =~= (
        enc_str_list(lv[0]) + enc_layer_rows(lv.drop_first())) + enc_str_list(row));
    }
}

/// Decoding a framed-transaction encoding yields the transactions.
#[verifier::rlimit(100)]
proof fn lemma_dec_enc_tx_frames(buf: Seq<u8>, pos: int, txs: Seq<TxView>)
    requires
        0 <= pos,
        forall|i: int|
            0 <= i < txs.len() ==> encodable_tx(#[trigger] txs[i]) && enc_tx(txs[i]).len()
                <= u64::MAX,
        pos + enc_tx_frames(txs).len() <= buf.len(),
        buf.subrange(pos, pos + enc_tx_frames(txs).len() as int) == enc_tx_frames(txs),
    ensures
        dec_tx_frames(buf, pos, txs.len() as nat) == Some((txs, pos + enc_tx_frames(txs).len())),
    decreases txs.len(),
{
    if txs.len() == 0 {
        assert(txs =~= Seq::<TxView>::empty());
    } else {
        let h = txs[0];
        let eh = enc_bytes(enc_tx(h));
        let e = enc_tx_frames(txs);
        assert(e == eh + enc_tx_frames(txs.drop_first()));
        assert(buf.subrange(pos, pos + eh.len() as int) =~= eh) by {
            assert forall|i: int| 0 <= i < eh.len() implies buf.subrange(
                pos,
                pos + eh.len() as int,
            )[i] == eh[i] by {
                assert(buf.subrange(pos, pos + e.len() as int)[i] == e[i]);
            }
        }
        lemma_dec_enc_bytes(buf, pos, enc_tx(h));
        lemma_transaction_round_trip(h);
        let p2 = pos + eh.len();
        assert(dec_tx_frame(buf, pos) == Some((h, p2)));
        let rest = enc_tx_frames(txs.drop_first());
        assert(buf.subrange(p2, p2 + rest.len() as int) =~= rest) by {
            assert forall|i: int| 0 <= i < rest.len() implies buf.subrange(
                p2,
                p2 + rest.len() as int,
            )[i] == rest[i] by {
                assert(buf.subrange(pos, pos + e.len() as int)[eh.len() + i] == e[eh.len() + i]);
            }
        }
        assert forall|i: int| 0 <= i < txs.drop_first().len() implies encodable_tx(
            #[trigger] txs.drop_first()[i],
        ) && enc_tx(txs.drop_first()[i]).len() <= u64::MAX by {
            assert(txs.drop_first()[i] == txs[i + 1]);
        }
        lemma_dec_enc_tx_frames(buf, p2, txs.drop_first());
        assert(seq![h] + txs.drop_first() =~= txs);
    }
}

/// Decoding a layer-row encoding yields the rows.
proof fn lemma_dec_enc_layer_rows(buf: Seq<u8>, pos: int, lv: Seq<Seq<Seq<char>>>)
    requires
        0 <= pos,
        forall|l: int| 0 <= l < lv.len() ==> (#[trigger] lv[l]).len() <= u64::MAX,
        forall|l: int, k: int|
            0 <= l < lv.len() && 0 <= k < lv[l].len() ==> encode_utf8(#[trigger] lv[l][k]).len()
                <= u64::MAX,
        pos + enc_layer_rows(lv).len() <= buf.len(),
        buf.subrange(pos, pos + enc_layer_rows(lv).len() as int) == enc_layer_rows(lv),
    ensures
        dec_layer_rows(buf, pos, lv.len() as nat) == Some((lv, pos + enc_layer_rows(lv).len())),
    decreases lv.len(),
{
    if lv.len() == 0 {
        assert(lv =~= Seq::<Seq<Seq<char>>>::empty());
    } else {
        let h = lv[0];
        let eh = enc_str_list(h);
        let e = enc_layer_rows(lv);
        assert(e == eh + enc_layer_rows(lv.drop_first()));
        assert(buf.subrange(pos, pos + eh.len() as int) =~= eh) by {
            assert forall|i: int| 0 <= i < eh.len() implies buf.subrange(
                pos,
                pos + eh.len() as int,
            )[i] == eh[i] by {
                assert(buf.subrange(pos, pos + e.len() as int)[i] == e[i]);
            }
        }
        assert forall|k: int| 0 <= k < h.len() implies encode_utf8(#[trigger] h[k]).len()
            <= u64::MAX by {
            assert(lv[0][k] == h[k]);
        }
        lemma_dec_enc_str_list(buf, pos, h);
        let p2 = pos + eh.len();
        let rest = enc_layer_rows(lv.drop_first());
        assert(buf.subrange(p2, p2 + rest.len() as int) =~= rest) by {
            assert forall|i: int| 0 <= i < rest.len() implies buf.subrange(
                p2,
                p2 + rest.len() as int,
            )[i] == rest[i] by {
                assert(buf.subrange(pos, pos + e.len() as int)[eh.len() + i] == e[eh.len() + i]);
            }
        }
        assert forall|l: int| 0 <= l < lv.drop_first().len() implies (
        #[trigger] lv.drop_first()[l]).len() <= u64::MAX by {
            assert(lv.drop_first()[l] == lv[l + 1]);
        }
        assert forall|l: int, k: int|
            0 <= l < lv.drop_first().len() && 0 <= k < lv.drop_first()[l].len() implies encode_utf8(
            #[trigger] lv.drop_first()[l][k],
        ).len() <= u64::MAX by {
            assert(lv.drop_first()[l] == lv[l + 1]);
        }
        lemma_dec_enc_layer_rows(buf, p2, lv.drop_first());
        assert(seq![h] + lv.drop_first() =~= lv);
    }
}

/// Round trip: decoding the wire form of a graph snapshot yields the same
/// stored transactions and layer sequence, with the whole buffer consumed.
pub proof fn lemma_graph_round_trip(s: Seq<TxView>, lv: Seq<Seq<Seq<char>>>)
    requires
        encodable_graph(s, lv),
    ensures
        dec_graph(enc_graph(s, lv), 0) == Some(((s, lv), enc_graph(s, lv).len() as int)),
{
    vstd::bytes::lemma_auto_spec_u64_to_from_le_bytes();
    let buf = enc_graph(s, lv);
    let e1 = enc_u64(s.len() as u64);
    let e2 = enc_tx_frames(s);
    let e3 = enc_u64(lv.len() as u64);
    let e4 = enc_layer_rows(lv);
    let p1 = e1.len() as int;
    let p2 = p1 + e2.len();
    let p3 = p2 + e3.len();
    let p4 = p3 + e4.len();
    assert(buf.len() == p4);
    assert(buf.subrange(0, p1) =~= e1);
    assert(buf.subrange(p1, p2) =~= e2);
    assert(buf.subrange(p2, p3) =~= e3);
    assert(buf.subrange(p3, p4) =~= e4);
    lemma_dec_enc_u64(buf, 0, s.len() as u64);
    lemma_dec_enc_tx_frames(buf, p1, s);
    lemma_dec_enc_u64(buf, p2, lv.len() as u64);
    lemma_dec_enc_layer_rows(buf, p3, lv);
}

/// Serializes a graph snapshot (transactions and layers) to its wire form.
pub fn serialize_graph(graph: &crate::graph::DAG) -> (r: Vec<u8>)
    ensures
        r@ == enc_graph(graph.tx_seq(), graph.layers_view()),
        encodable_graph(graph.tx_seq(), graph.layers_view()),
{
    let ghost sv = graph.tx_seq();
    let ghost lv = graph.layers_view();
    let mut out: Vec<u8> = Vec::new();
    let n = graph.transactions.len();
    push_u64(&mut out, n as u64);
    let ghost base = out@;
    let mut i: usize = 0;
    proof {
        assert(sv.take(0) =~= Seq::<TxView>::empty());
        assert(enc_tx_frames(Seq::<TxView>::empty()) =~= Seq::<u8>::empty());
        assert(out@ =~= base + enc_tx_frames(sv.take(0)));
    }
    while i < n
        invariant
            n == graph.transactions@.len(),
            sv == graph.tx_seq(),
            0 <= i <= n,
            out@ == base + enc_tx_frames(sv.take(i as int)),
            forall|j: int|
                0 <= j < i ==> encodable_tx(#[trigger] sv[j]) && enc_tx(sv[j]).len() <= u64::MAX,
        decreases n - i,
    {
        let frame = serialize_transaction(&graph.transactions[i]);
        push_bytes(&mut out, &frame);
        proof {
            lemma_enc_tx_frames_push(sv.take(i as int), sv[i as int]);
            assert(sv.take(i as int).push(sv[i as int]) =~= sv.take(i as int + 1));
            assert(out@ =~= base + enc_tx_frames(sv.take(i as int + 1)));
        }
        i = i + 1;
    }
    proof {
        assert(sv.take(n as int) =~= sv);
    }
    let m = graph.layers.len();
    push_u64(&mut out, m as u64);
    let ghost base2 = out@;
    let mut l: usize = 0;
    proof {
        assert(lv.take(0) =~= Seq::<Seq<Seq<char>>>::empty());
        assert(enc_layer_rows(Seq::<Seq<Seq<char>>>::empty()) =~= Seq::<u8>::empty());
        assert(out@ =~= base2 + enc_layer_rows(lv.take(0)));
    }
    while l < m
        invariant
            m == graph.layers@.len(),
            lv == graph.layers_view(),
            0 <= l <= m,
            out@ == base2 + enc_layer_rows(lv.take(l as int)),
            forall|a: int| 0 <= a < l ==> (#[trigger] lv[a]).len() <= u64::MAX,
            forall|a: int, k: int|
                0 <= a < l && 0 <= k < lv[a].len() ==> encode_utf8(#[trigger] lv[a][k]).len()
                    <= u64::MAX,
        decreases m - l,
    {
        push_str_list(&mut out, &graph.layers[l]);
        proof {
            lemma_enc_layer_rows_push(lv.take(l as int), lv[l as int]);
            assert(lv.take(l as int).push(lv[l as int]) =~= lv.take(l as int + 1));
            assert(out@ =~= base2 + enc_layer_rows(lv.take(l as int + 1)));
        }
        l = l + 1;
    }
    proof {
        assert(lv.take(m as int) =~= lv);
        assert(out@ =~= enc_graph(sv, lv));
    }
    out
}

/// Reads one framed transaction.
fn read_tx_frame(buf: &Vec<u8>, pos: usize) -> (r: Option<(Transaction, usize)>)
    ensures
        r matches Some(x) ==> dec_tx_frame(buf@, pos as int) matches Some(y) && y.0 == x.0@ && y.1
            == x.1 as int && x.1 <= buf@.len(),
        r is None ==> dec_tx_frame(buf@, pos as int) is None,
{
    let (frame, p) = match read_bytes(buf, pos) {
        None => {
            return None;
        },
        Some(x) => x,
    };
    match deserialize_transaction(&frame) {
        None => None,
        Some(tx) => Some((tx, p)),
    }
}

/// Deserializes a graph snapshot from its wire form; the whole buffer must
/// be consumed, and the snapshot's parts must form a well-formed graph.
/// Malformed input fails with `ValidationFailed`.
pub fn deserialize_graph(buf: &Vec<u8>) -> (r: Result<crate::graph::DAG, crate::errors::LedgerError>)
    ensures
        ({
            match dec_graph(buf@, 0) {
                Some(y) => if y.1 == buf@.len() && crate::graph::parts_wf(y.0.0, y.0.1) {
                    r matches Ok(g) && g.tx_seq() == y.0.0 && g.layers_view() == y.0.1 && g.wf()
                } else {
                    r is Err
                },
                None => r is Err,
            }
        }),
        r is Err ==> r == Err::<crate::graph::DAG, crate::errors::LedgerError>(
            crate::errors::LedgerError::ValidationFailed,
        ),
{
    let (n, p1) = match read_u64(buf, 0) {
        None => {
            return Err(crate::errors::LedgerError::ValidationFailed);
        },
        Some(x) => x,
    };
    let mut txs: Vec<Transaction> = Vec::new();
    let mut p = p1;
    let mut i: u64 = 0;
    proof {
        assert(txs.deep_view() =~= Seq::<TxView>::empty());
    }
    while i < n
        invariant
            p <= buf@.len(),
            0 <= i <= n,
            dec_graph(buf@, 0) == match dec_tx_frames(buf@, p as int, (n - i) as nat) {
                None => None::<((Seq<TxView>, Seq<Seq<Seq<char>>>), int)>,
                Some((rest, pe)) => match dec_u64(buf@, pe) {
                    None => None::<((Seq<TxView>, Seq<Seq<Seq<char>>>), int)>,
                    Some((m2, q)) => match dec_layer_rows(buf@, q, m2 as nat) {
                        None => None::<((Seq<TxView>, Seq<Seq<Seq<char>>>), int)>,
                        Some((lvr, q2)) => Some(((txs.deep_view() + rest, lvr), q2)),
                    },
                },
            },
        decreases n - i,
    {
        let ghost txs0 = txs.deep_view();
        let ghost pprev = p as int;
        let t = match read_tx_frame(buf, p) {
            None => {
                return Err(crate::errors::LedgerError::ValidationFailed);
            },
            Some(x) => {
                p = x.1;
                x.0
            },
        };
        txs.push(t);
        proof {
            assert(txs.deep_view() =~= txs0.push(txs.deep_view()[txs0.len() as int]));
            let tv = txs.deep_view()[txs0.len() as int];
            assert(dec_tx_frame(buf@, pprev) == Some((tv, p as int)));
            assert forall|rest: Seq<TxView>| true implies txs0 + (seq![tv] + rest) =~= txs0.push(
                tv,
            ) + rest by {}
        }
        i = i + 1;
    }
    proof {
        assert(dec_tx_frames(buf@, p as int, 0nat) == Some((Seq::<TxView>::empty(), p as int)));
        assert(txs.deep_view() + Seq::<TxView>::empty() =~= txs.deep_view());
    }
    let (m, p2) = match read_u64(buf, p) {
        None => {
            return Err(crate::errors::LedgerError::ValidationFailed);
        },
        Some(x) => x,
    };
    let mut rows: Vec<Vec<String>> = Vec::new();
    let mut q = p2;
    let mut l: u64 = 0;
    proof {
        assert(rows.deep_view() =~= Seq::<Seq<Seq<char>>>::empty());
    }
    while l < m
        invariant
            q <= buf@.len(),
            0 <= l <= m,
            dec_graph(buf@, 0) == match dec_layer_rows(buf@, q as int, (m - l) as nat) {
                None => None::<((Seq<TxView>, Seq<Seq<Seq<char>>>), int)>,
                Some((lvr, q2)) => Some(((txs.deep_view(), rows.deep_view() + lvr), q2)),
            },
        decreases m - l,
    {
        let ghost rows0 = rows.deep_view();
        let ghost qprev = q as int;
        let row = match read_str_list(buf, q) {
            None => {
                return Err(crate::errors::LedgerError::ValidationFailed);
            },
            Some(x) => {
                q = x.1;
                x.0
            },
        };
        rows.push(row);
        proof {
            assert(rows.deep_view() =~= rows0.push(rows.deep_view()[rows0.len() as int]));
            let rv = rows.deep_view()[rows0.len() as int];
            assert(dec_str_list(buf@, qprev) matches Some(y) && y.0 == rv && y.1 == q as int);
            assert forall|lvr: Seq<Seq<Seq<char>>>| true implies rows0 + (seq![rv] + lvr)
                =~= rows0.push(rv) + lvr by {}
        }
        l = l + 1;
    }
    proof {
        assert(dec_layer_rows(buf@, q as int, 0nat) == Some(
            (Seq::<Seq<Seq<char>>>::empty(), q as int),
        ));
        assert(rows.deep_view() + Seq::<Seq<Seq<char>>>::empty() =~= rows.deep_view());
    }
    if q != buf.len() {
        return Err(crate::errors::LedgerError::ValidationFailed);
    }
    crate::graph::DAG::from_parts(txs, rows)
}

} // verus!
