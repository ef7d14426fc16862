//! Contract dispatch: a registry of named handlers invoked per transaction.
//!
//! The registry holds one built-in handler, `"transfer"`; external contract
//! modules extend the system by registering further names with whatever
//! runs this core, and such a name reaching this dispatcher unregistered
//! fails with `UnsupportedContract`.

use vstd::prelude::*;
use vstd::utf8::{encode_scalar, encode_utf8, is_ascii_chars};

use crate::errors::LedgerError;
use crate::graph::DAG;
use crate::txn::Transaction;

verus! {

/// The decimal digit characters.
pub open spec fn digit_char(d: int) -> char
    recommends
        0 <= d < 10,
{
    seq!['0', '1', '2', '3', '4', '5', '6', '7', '8', '9'][d]
}

/// The decimal rendering of `n`, most significant digit first.
pub open spec fn spec_decimal(n: u64) -> Seq<char>
    decreases n,
{
    if n < 10 {
        seq![digit_char(n as int)]
    } else {
        spec_decimal(n / 10).push(digit_char((n % 10) as int))
    }
}

/// Decimal renderings are ASCII.
proof fn lemma_decimal_ascii(n: u64)
    ensures
        is_ascii_chars(spec_decimal(n)),
    decreases n,
{
    if n >= 10 {
        lemma_decimal_ascii(n / 10);
        assert forall|i: int| 0 <= i < spec_decimal(n).len() implies '\0'
            <= #[trigger] spec_decimal(n)[i] <= '\u{7f}' by {
            if i < spec_decimal(n / 10).len() {
                assert(spec_decimal(n)[i] == spec_decimal(n / 10)[i]);
            }
        }
    }
}

/// UTF-8 encoding distributes over concatenation.
proof fn lemma_encode_utf8_concat(a: Seq<char>, b: Seq<char>)
    ensures
        encode_utf8(a + b) == encode_utf8(a) + encode_utf8(b),
    decreases a.len(),
{
    if a.len() == 0 {
        assert(a + b =~= b);
        assert(encode_utf8(a) =~= Seq::<u8>::empty());
        assert(encode_utf8(a) + encode_utf8(b) =~= encode_utf8(b));
    } else {
        assert((a + b)[0] == a[0]);
        assert((a + b).drop_first() =~= a.drop_first() + b);
        lemma_encode_utf8_concat(a.drop_first(), b);
        assert(encode_scalar(a[0] as u32) + (encode_utf8(a.drop_first()) + encode_utf8(b)) =~= (
        encode_scalar(a[0] as u32) + encode_utf8(a.drop_first())) + encode_utf8(b));
    }
}

/// The UTF-8 bytes of the decimal rendering of `n`.
fn decimal_bytes(n: u64) -> (r: Vec<u8>)
    ensures
        r@ == encode_utf8(spec_decimal(n)),
    decreases n,
{
    broadcast use vstd::utf8::is_ascii_chars_encode_utf8;

    proof {
        lemma_decimal_ascii(n);
    }
    let d: u8 = (n % 10) as u8 + 48;
    proof {
        assert(digit_char((n % 10) as int) as u8 == 48 + (n % 10));
    }
    let mut v: Vec<u8>;
    if n < 10 {
        v = Vec::new();
        v.push(d);
        proof {
            assert(v@ =~= encode_utf8(spec_decimal(n)));
        }
    } else {
        v = decimal_bytes(n / 10);
        v.push(d);
        proof {
            lemma_decimal_ascii(n / 10);
            assert(v@ =~= encode_utf8(spec_decimal(n))) by {
                assert forall|i: int| 0 <= i < v@.len() implies v@[i] == encode_utf8(
                    spec_decimal(n),
                )[i] by {
                    if i < spec_decimal(n / 10).len() {
                        assert(spec_decimal(n)[i] == spec_decimal(n / 10)[i]);
                        assert(v@[i] == encode_utf8(spec_decimal(n / 10))[i]);
                    } else {
                        assert(spec_decimal(n)[i] == digit_char((n % 10) as int));
                    }
                }
            }
        }
    }
    v
}

/// Appends the bytes of a slice.
fn push_slice(out: &mut Vec<u8>, s: &[u8])
    ensures
        final(out)@ == old(out)@ + s@,
{
    let mut c = vstd::slice::slice_to_vec(s);
    out.append(&mut c);
}

/// The description returned for an executed transfer: the sender, the
/// receiver and the decimal amount, embedded in one line.
pub open spec fn transfer_description(sender: Seq<char>, receiver: Seq<char>, amount: u64) -> Seq<
    char,
> {
    "Transfer executed: "@ + sender + " -> "@ + receiver + " (amount: "@ + spec_decimal(amount)
        + ")"@
}

/// Builds the transfer description from its parts.
fn build_transfer_description(sender: &String, receiver: &String, amount: u64) -> (r: String)
    ensures
        r@ == transfer_description(sender@, receiver@, amount),
{
    broadcast use vstd::utf8::encode_utf8_valid_utf8, vstd::utf8::encode_utf8_decode_utf8;

    let mut bytes: Vec<u8> = Vec::new();
    push_slice(&mut bytes, "Transfer executed: ".as_bytes());
    push_slice(&mut bytes, sender.as_str().as_bytes());
    push_slice(&mut bytes, " -> ".as_bytes());
    push_slice(&mut bytes, receiver.as_str().as_bytes());
    push_slice(&mut bytes, " (amount: ".as_bytes());
    let mut dec = decimal_bytes(amount);
    bytes.append(&mut dec);
    push_slice(&mut bytes, ")".as_bytes());
    proof {
        let p1 = "Transfer executed: "@;
        let p2 = " -> "@;
        let p3 = " (amount: "@;
        let p4 = ")"@;
        let c1 = p1 + sender@;
        let c2 = c1 + p2;
        let c3 = c2 + receiver@;
        let c4 = c3 + p3;
        let c5 = c4 + spec_decimal(amount);
        let c6 = c5 + p4;
        lemma_encode_utf8_concat(p1, sender@);
        lemma_encode_utf8_concat(c1, p2);
        lemma_encode_utf8_concat(c2, receiver@);
        lemma_encode_utf8_concat(c3, p3);
        lemma_encode_utf8_concat(c4, spec_decimal(amount));
        lemma_encode_utf8_concat(c5, p4);
        assert(bytes@ =~= encode_utf8(c6));
        assert(c6 == transfer_description(sender@, receiver@, amount));
    }
    match crate::codec::string_from_utf8(bytes) {
        Some(s) => s,
        None => {
            proof {
                assert(false);
            }
            String::new()
        },
    }
}

impl DAG {
    /// Executes the contract attached to a transaction. A transaction
    /// without a contract succeeds with a no-op description. The built-in
    /// `"transfer"` handler succeeds exactly when the amount is positive,
    /// describing the executed transfer with its sender, receiver and
    /// amount, and fails with `InvalidTransfer` otherwise; any other
    /// handler name fails with `UnsupportedContract`. Read-only: the graph
    /// and the transaction are not touched.
    pub fn execute_contract(&self, tx: &Transaction) -> (r: Result<String, LedgerError>)
        ensures
            match tx@.contract {
                None => r matches Ok(s) && s@ == "No contract logic found"@,
                Some(c) => {
                    if c.name == "transfer"@ {
                        if tx@.amount > 0 {
                            r matches Ok(s) && s@ == transfer_description(
                                tx@.sender,
                                tx@.receiver,
                                tx@.amount,
                            )
                        } else {
                            r == Err::<String, LedgerError>(LedgerError::InvalidTransfer)
                        }
                    } else {
                        r == Err::<String, LedgerError>(LedgerError::UnsupportedContract)
                    }
                },
            },
    {
        match &tx.contract {
            None => Ok("No contract logic found".to_owned()),
            Some(handle) => {
                if handle.name == "transfer".to_owned() {
                    if tx.amount > 0 {
                        Ok(build_transfer_description(&tx.sender, &tx.receiver, tx.amount))
                    } else {
                        Err(LedgerError::InvalidTransfer)
                    }
                } else {
                    Err(LedgerError::UnsupportedContract)
                }
            },
        }
    }
}

} // verus!
