//! Trusted boundary to the `bitcoin` crate. The channel core stores and
//! indexes partially signed transactions, outpoints and outputs without ever
//! looking inside them; the one real computation taken from the crate is the
//! wrapping of an unsigned transaction into a fresh PSBT.

use vstd::prelude::*;

use bitcoin::blockdata::script::Script;
use bitcoin::blockdata::transaction::{OutPoint, Transaction, TxIn, TxOut};
use bitcoin::blockdata::witness::Witness;
use bitcoin::hash_types::Txid;
use bitcoin::hashes::sha256d;
use bitcoin::util::psbt::PartiallySignedTransaction as Psbt;

verus! {

#[verifier::external_type_specification]
#[verifier::external_body]
pub struct ExPsbt(Psbt);

#[verifier::external_type_specification]
#[verifier::external_body]
pub struct ExOutPoint(OutPoint);

#[verifier::external_type_specification]
#[verifier::external_body]
pub struct ExTxOut(TxOut);

/// Relies on bitcoin's derived `Clone` for `PartiallySignedTransaction`:
/// a field-for-field copy of plain data.
pub assume_specification[ <Psbt as Clone>::clone ](p: &Psbt) -> (r: Psbt)
    ensures
        r == *p,
;

/// Relies on bitcoin's derived `Clone` for `OutPoint`, a `Copy` type.
pub assume_specification[ <OutPoint as Clone>::clone ](p: &OutPoint) -> (r: OutPoint)
    ensures
        r == *p,
;

/// Relies on bitcoin's derived `Clone` for `TxOut`: a field-for-field copy
/// of an amount and a script.
pub assume_specification[ <TxOut as Clone>::clone ](t: &TxOut) -> (r: TxOut)
    ensures
        r == *t,
;

/// What `Psbt::from_unsigned_tx` returns for an unsigned transaction with the
/// given version, lock time and outputs and a single input spending the given
/// outpoint with the given sequence and empty script sig and witness: a value
/// determined by these arguments alone.
pub uninterp spec fn cmt_psbt_of(
    version: i32,
    lock_time: u32,
    sequence: u32,
    outpoint: OutPoint,
    outs: Seq<TxOut>,
) -> Psbt;

/// Relies on bitcoin's `Psbt::from_unsigned_tx`: it wraps the transaction it
/// is given, unchanged, into a PSBT with one empty signing map per input and
/// output, and fails only when an input carries a script sig or a witness,
/// which the single input built here never does.
#[verifier::external_body]
pub(crate) fn assemble_cmt_psbt(
    version: i32,
    lock_time: u32,
    sequence: u32,
    outpoint: &OutPoint,
    outs: &Vec<TxOut>,
) -> (r: Psbt)
    ensures
        r == cmt_psbt_of(version, lock_time, sequence, *outpoint, outs@),
{
    let tx = Transaction {
        version,
        lock_time,
        input: vec![TxIn {
            previous_output: *outpoint,
            script_sig: Script::new(),
            sequence,
            witness: Witness::default(),
        }],
        output: outs.clone(),
    };
    Psbt::from_unsigned_tx(tx).expect("script_sig and witness of the single input are empty")
}

/// What `Psbt::from_unsigned_tx` returns for an unsigned transaction of the
/// given version with zero lock time and no inputs or outputs: a value
/// determined by the version alone.
pub uninterp spec fn empty_psbt_of(version: i32) -> Psbt;

/// Relies on bitcoin's `Psbt::from_unsigned_tx`: it wraps the transaction it
/// is given, unchanged; a transaction without inputs passes its unsigned
/// checks vacuously, so the `expect` never fires.
#[verifier::external_body]
pub(crate) fn empty_unsigned_psbt(version: i32) -> (r: Psbt)
    ensures
        r == empty_psbt_of(version),
{
    let tx = Transaction { version, lock_time: 0, input: Vec::new(), output: Vec::new() };
    Psbt::from_unsigned_tx(tx).expect("a transaction without inputs passes the unsigned checks")
}

/// What assembling an outpoint from a 32-byte transaction id and an output
/// position returns: a value determined by these arguments alone.
pub uninterp spec fn outpoint_of(txid: Seq<u8>, vout: u32) -> OutPoint;

/// Relies on bitcoin's `Txid::from_hash` and `sha256d::Hash::from_inner`:
/// both wrap the 32 bytes unchanged, so the outpoint is a function of the
/// bytes and the position. With all-zero bytes and the largest position it
/// is bitcoin's null outpoint, the one `OutPoint::null` builds.
#[verifier::external_body]
pub(crate) fn outpoint_from_parts(txid: &[u8; 32], vout: u32) -> (r: OutPoint)
    ensures
        r == outpoint_of(txid@, vout),
{
    let hash = <sha256d::Hash as bitcoin::hashes::Hash>::from_inner(*txid);
    OutPoint { txid: Txid::from_hash(hash), vout }
}

} // verus!
