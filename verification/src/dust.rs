//! The dust limit of an output script: the smallest value an output with
//! that script can carry and still be economically relayable.  The limit is
//! a pure function of the script bytes; the computation itself is the
//! bitcoin crate's, called through a trusted wrapper whose contract restates
//! the crate's formula.

use vstd::prelude::*;

use crate::fees::varint_len;

verus! {

/// Serialized size of a script of `n` bytes: a length prefix, then the
/// bytes.
pub open spec fn script_encoded_len(n: nat) -> nat {
    varint_len(n) + n
}

/// A witness program: a version byte (zero, or the opcodes for one through
/// sixteen), then a single push of the rest, on a script of 4 to 42 bytes.
pub open spec fn is_witness_program_script(s: Seq<u8>) -> bool {
    4 <= s.len() <= 42 && (s[0] == 0 || (0x51 <= s[0] && s[0] <= 0x60)) && 2 <= s[1] <= 40 && s[1]
        == s.len() - 2
}

/// A data-carrier script, unspendable by construction.
pub open spec fn is_op_return_script(s: Seq<u8>) -> bool {
    s.len() > 0 && s[0] == 0x6a
}

/// The dust limit of a script, in satoshis: three satoshis per virtual byte
/// of the cost of creating and later spending an output with this script.
/// Data carriers have no limit; witness spends are discounted.
pub open spec fn dust_of(s: Seq<u8>) -> nat {
    if is_op_return_script(s) {
        0
    } else if is_witness_program_script(s) {
        3 * (75 + script_encoded_len(s.len()))
    } else {
        3 * (156 + script_encoded_len(s.len()))
    }
}

/// Within the wrapper's length bound, the dust limit stays small.
pub proof fn lemma_dust_of_bound(s: Seq<u8>)
    requires
        s.len() <= 10_000,
    ensures
        dust_of(s) <= 30_477,
{
}

/// Relies on `bitcoin::Script::dust_value`: for an op-return script it
/// returns zero; otherwise three times the sum of the serialized output
/// size (8 value bytes plus the length-prefixed script) and the input cost
/// of spending it (67 virtual bytes for a witness program, 148 otherwise).
/// The length bound keeps the result within `u64`; it far exceeds the
/// consensus cap on script length.
#[verifier::external_body]
pub(crate) fn dust_limit(script: &Vec<u8>) -> (r: u64)
    requires
        script@.len() <= 10_000,
    ensures
        r == dust_of(script@),
{
    bitcoin::Script::from(script.clone()).dust_value().to_sat()
}

} // verus!
