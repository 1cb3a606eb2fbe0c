//! Virtual size of the transactions the builder shapes.  The builder only
//! ever measures witness-free transactions, whose virtual size is their
//! plain serialized size; the measurement is the bitcoin crate's, called
//! through a trusted wrapper whose contract restates the serialization
//! arithmetic.

use vstd::prelude::*;

verus! {

/// Serialized size of Bitcoin's variable-length integer.
pub open spec fn varint_len(n: nat) -> nat {
    if n < 253 {
        1
    } else if n < 0x10000 {
        3
    } else if n < 0x100000000 {
        5
    } else {
        9
    }
}

/// Serialized size of a list of outputs: for each, 8 value bytes and the
/// length-prefixed script.
pub open spec fn outputs_size(script_lens: Seq<nat>) -> nat
    decreases script_lens.len(),
{
    if script_lens.len() == 0 {
        0
    } else {
        outputs_size(script_lens.drop_last()) + 8 + varint_len(script_lens.last())
            + script_lens.last()
    }
}

/// Virtual size of a witness-free transaction whose inputs all carry a
/// script of `script_sig_len` bytes: version and lock time, the two count
/// prefixes, 40 bytes of outpoint and sequence per input plus its
/// length-prefixed script, and the outputs.
pub open spec fn legacy_tx_vsize(
    input_count: nat,
    script_sig_len: nat,
    output_script_lens: Seq<nat>,
) -> nat {
    8 + varint_len(input_count) + input_count * (40 + varint_len(script_sig_len) + script_sig_len)
        + varint_len(output_script_lens.len()) + outputs_size(output_script_lens)
}

/// Relies on `bitcoin::Transaction::vsize`: with every witness empty the
/// weight is four times the serialized size, so the virtual size is the
/// serialized size itself, summed field by field as `legacy_tx_vsize`
/// states it.  The count and length bounds keep every term within the
/// machine's integers; they far exceed any consensus-valid transaction.
#[verifier::external_body]
pub(crate) fn transaction_vsize(
    input_count: usize,
    script_sig: &Vec<u8>,
    outputs: &Vec<(u64, Vec<u8>)>,
) -> (r: usize)
    requires
        1 <= input_count <= 100_000,
        1 <= outputs@.len() <= 100_000,
        script_sig@.len() <= 10_000,
        forall|i: int| 0 <= i < outputs@.len() ==> (#[trigger] outputs@[i]).1@.len() <= 10_000,
    ensures
        r == legacy_tx_vsize(
            input_count as nat,
            script_sig@.len(),
            outputs@.map_values(|o: (u64, Vec<u8>)| o.1@.len()),
        ),
{
    bitcoin::Transaction {
        version: 1,
        lock_time: bitcoin::PackedLockTime::ZERO,
        input: std::iter::repeat_with(|| bitcoin::TxIn {
            previous_output: bitcoin::OutPoint::null(),
            script_sig: bitcoin::Script::from(script_sig.clone()),
            sequence: bitcoin::Sequence::MAX,
            witness: bitcoin::Witness::new(),
        }).take(input_count).collect(),
        output: outputs.iter().map(|(value, script)| bitcoin::TxOut {
            value: *value,
            script_pubkey: bitcoin::Script::from(script.clone()),
        }).collect(),
    }.vsize()
}

} // verus!
