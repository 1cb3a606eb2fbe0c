//! Ordinal-aware transaction construction.
//!
//! Moving a chosen identifier is fraught: beyond the usual concerns of fee
//! and dust, the transaction must deliver exactly the chosen identifier to
//! the recipient, must not sweep other rare identifiers into the recipient
//! output or the fee, and must pay exactly the target fee rate.
//!
//! `TransactionBuilder::build_transaction` runs a strict pipeline of
//! stages, each a value-to-value transformation with an exact contract:
//! select the output holding the identifier, align the identifier to the
//! front of the recipient output, pad the alignment output up to its dust
//! limit, add postage, strip excess postage, deduct the fee, and emit the
//! transaction after checking the battery of invariants.
//!
//! The wallet's unspent outputs arrive as a list of `(outpoint, ranges)`
//! pairs in ascending outpoint order — the iteration order of the index's
//! map — and candidates are scanned in that order.

use vstd::prelude::*;

use crate::dust::dust_limit;
use crate::dust::dust_of;
use crate::fees::legacy_tx_vsize;
use crate::fees::outputs_size;
use crate::fees::transaction_vsize;
use crate::ordinal::ordinal_third;
use crate::ordinal::Ordinal;
use crate::rarity::Rarity;

verus! {

/// Reference to an unspent transaction output: a transaction id, as four
/// little-endian words, and an output index.
#[derive(Clone, Copy, Debug, PartialEq, Eq, Structural, Hash, PartialOrd, Ord)]
pub struct OutPoint {
    /// Bits 0..64 of the transaction id.
    pub txid0: u64,
    /// Bits 64..128 of the transaction id.
    pub txid1: u64,
    /// Bits 128..192 of the transaction id.
    pub txid2: u64,
    /// Bits 192..256 of the transaction id.
    pub txid3: u64,
    /// The index of the output within that transaction.
    pub vout: u32,
}

/// A destination, held as the output script it pays to.
#[derive(Debug, PartialEq, Eq, Hash)]
pub struct Address {
    /// The output script of this address.
    pub script_pubkey: Vec<u8>,
}

impl Address {
    /// The address's script bytes.
    pub open spec fn spk(self) -> Seq<u8> {
        self.script_pubkey@
    }

    /// Make an address from its output script.
    pub fn new(script_pubkey: Vec<u8>) -> (r: Address)
        ensures
            r.spk() == script_pubkey@,
    {
        Address { script_pubkey }
    }

    /// Whether two addresses pay to the same script.
    pub fn same_script(&self, other: &Address) -> (r: bool)
        ensures
            r == (self.spk() == other.spk()),
    {
        if self.script_pubkey.len() != other.script_pubkey.len() {
            return false;
        }
        let mut i: usize = 0;
        while i < self.script_pubkey.len()
            invariant
                i <= self.spk().len(),
                self.spk().len() == other.spk().len(),
                forall|j: int| 0 <= j < i ==> self.spk()[j] == other.spk()[j],
            decreases self.spk().len() - i,
        {
            if self.script_pubkey[i] != other.script_pubkey[i] {
                return false;
            }
            i = i + 1;
        }
        proof {
            assert(self.spk() =~= other.spk());
        }
        true
    }
}

/// An input of the modeled transaction.  Every input the builder emits
/// carries an empty signature script, an empty witness and the maximum
/// sequence number, so only the spent outpoint is modeled.
#[derive(Clone, Copy, Debug, PartialEq, Eq)]
pub struct TxIn {
    /// The output this input spends.
    pub previous_output: OutPoint,
}

/// An output of the modeled transaction.
#[derive(Debug, PartialEq, Eq)]
pub struct TxOut {
    /// Value in satoshis.
    pub value: u64,
    /// The script this output pays to.
    pub script_pubkey: Vec<u8>,
}

/// The transaction the builder emits: version 1, lock time 0, and the
/// inputs and outputs in their final order.
#[derive(Debug, PartialEq, Eq)]
pub struct Transaction {
    /// Transaction format version.
    pub version: i32,
    /// Earliest time the transaction may be mined.
    pub lock_time: u32,
    /// The inputs, in order.
    pub input: Vec<TxIn>,
    /// The outputs, in order.
    pub output: Vec<TxOut>,
}

/// Why construction failed.
#[derive(Clone, Copy, Debug, PartialEq, Eq, Structural, Hash)]
pub enum Error {
    /// No wallet output carries the requested identifier.
    NotInWallet(Ordinal),
    /// A stage needed a cardinal output of some minimum value and none of
    /// the remaining candidates qualifies.
    NotEnoughCardinalUtxos,
    /// The transaction would deliver the carried rare identifier to the
    /// recipient alongside the requested one.
    RareOrdinalLostToRecipient(Ordinal),
    /// The transaction would burn the carried rare identifier as fee.
    RareOrdinalLostToFee(Ordinal),
}

impl Error {
    /// The error written out for a person.
    pub fn message(&self) -> (r: String)
        ensures
            r@ == match *self {
                Error::NotInWallet(ordinal) => "ordinal "@ + crate::chars::dec_seq(
                    ordinal.0 as nat,
                ) + " not in wallet"@,
                Error::NotEnoughCardinalUtxos => (
                "wallet does not contain enough cardinal UTXOs, please add additional funds to wallet."@
                ),
                Error::RareOrdinalLostToRecipient(ordinal) => "transaction would lose rare ordinal "@
                    + crate::chars::dec_seq(ordinal.0 as nat) + " to recipient"@,
                Error::RareOrdinalLostToFee(ordinal) => "transaction would lose rare ordinal "@
                    + crate::chars::dec_seq(ordinal.0 as nat) + " to fee"@,
            },
    {
        match self {
            Error::NotInWallet(ordinal) => {
                let mut r = String::from_str("ordinal ");
                let mut num: Vec<char> = Vec::new();
                crate::chars::push_u64(&mut num, ordinal.0);
                r.append(crate::chars::string_of_chars(&num).as_str());
                r.append(" not in wallet");
                r
            },
            Error::NotEnoughCardinalUtxos => String::from_str(
                "wallet does not contain enough cardinal UTXOs, please add additional funds to wallet.",
            ),
            Error::RareOrdinalLostToRecipient(ordinal) => {
                let mut r = String::from_str("transaction would lose rare ordinal ");
                let mut num: Vec<char> = Vec::new();
                crate::chars::push_u64(&mut num, ordinal.0);
                r.append(crate::chars::string_of_chars(&num).as_str());
                r.append(" to recipient");
                r
            },
            Error::RareOrdinalLostToFee(ordinal) => {
                let mut r = String::from_str("transaction would lose rare ordinal ");
                let mut num: Vec<char> = Vec::new();
                crate::chars::push_u64(&mut num, ordinal.0);
                r.append(crate::chars::string_of_chars(&num).as_str());
                r.append(" to fee");
                r
            },
        }
    }
}

/// Total number of satoshis in a list of half-open ranges.
pub open spec fn range_sum(rs: Seq<(u64, u64)>) -> int
    decreases rs.len(),
{
    if rs.len() == 0 {
        0
    } else {
        range_sum(rs.drop_last()) + (rs.last().1 - rs.last().0)
    }
}

/// Whether some range of the list holds identifier `n`.
pub open spec fn ranges_contain(rs: Seq<(u64, u64)>, n: u64) -> bool {
    exists|i: int| 0 <= i < rs.len() && (#[trigger] rs[i]).0 <= n < rs[i].1
}

/// The position of identifier `n` within the concatenated ranges: the
/// satoshis of earlier ranges, then the offset within the holding range.
pub open spec fn offset_in_ranges(rs: Seq<(u64, u64)>, n: u64) -> int
    decreases rs.len(),
{
    if rs.len() == 0 {
        0
    } else if rs[0].0 <= n < rs[0].1 {
        n - rs[0].0
    } else {
        (rs[0].1 - rs[0].0) + offset_in_ranges(rs.drop_first(), n)
    }
}

/// Every range is nonempty and stays within the supply.
pub open spec fn valid_ranges(rs: Seq<(u64, u64)>) -> bool {
    forall|i: int| 0 <= i < rs.len() ==> (#[trigger] rs[i]).0 < rs[i].1 <= Ordinal::SUPPLY
}

/// A wallet output is cardinal when every one of its ranges starts with a
/// common identifier; ranges are split only at transaction boundaries, so
/// a rare identifier can only sit at a range's start.
pub open spec fn utxo_cardinal(rs: Seq<(u64, u64)>) -> bool {
    forall|i: int| 0 <= i < rs.len() ==> ordinal_third((#[trigger] rs[i]).0 as nat) != 0
}

/// The outpoints of a manifest, in order.
pub open spec fn manifest_keys(m: Seq<(OutPoint, Vec<(u64, u64)>)>) -> Seq<OutPoint> {
    m.map_values(|p: (OutPoint, Vec<(u64, u64)>)| p.0)
}

/// The ranges the manifest assigns to `op` (first entry wins).
pub open spec fn lookup_ranges(m: Seq<(OutPoint, Vec<(u64, u64)>)>, op: OutPoint) -> Seq<(u64, u64)>
    decreases m.len(),
{
    if m.len() == 0 {
        Seq::empty()
    } else if m[0].0 == op {
        m[0].1@
    } else {
        lookup_ranges(m.drop_first(), op)
    }
}

/// Whether the manifest has an entry for `op`.
pub open spec fn has_key(m: Seq<(OutPoint, Vec<(u64, u64)>)>, op: OutPoint) -> bool {
    exists|i: int| 0 <= i < m.len() && m[i].0 == op
}

/// The first manifest index whose ranges hold identifier `n`, or `-1`.
pub open spec fn find_host(m: Seq<(OutPoint, Vec<(u64, u64)>)>, n: u64) -> int
    decreases m.len(),
{
    if m.len() == 0 {
        -1
    } else if ranges_contain(m[0].1@, n) {
        0
    } else {
        let r = find_host(m.drop_first(), n);
        if r < 0 {
            -1
        } else {
            r + 1
        }
    }
}

/// Total number of satoshis across the whole manifest.
pub open spec fn manifest_total(m: Seq<(OutPoint, Vec<(u64, u64)>)>) -> int
    decreases m.len(),
{
    if m.len() == 0 {
        0
    } else {
        manifest_total(m.drop_last()) + range_sum(m.last().1@)
    }
}

/// A well-formed manifest: distinct outpoints, valid ranges, and — since
/// the unspent ranges partition the identifiers issued so far — no more
/// satoshis in total than the supply.
pub open spec fn manifest_wf(m: Seq<(OutPoint, Vec<(u64, u64)>)>) -> bool {
    (forall|i: int, j: int| 0 <= i < j < m.len() ==> m[i].0 != m[j].0) && (forall|i: int|
        0 <= i < m.len() ==> valid_ranges((#[trigger] m[i]).1@)) && manifest_total(m)
        <= Ordinal::SUPPLY
}

/// The ranges spent by a list of inputs, concatenated in input order.
pub open spec fn input_ranges(m: Seq<(OutPoint, Vec<(u64, u64)>)>, inputs: Seq<OutPoint>) -> Seq<
    (u64, u64),
>
    decreases inputs.len(),
{
    if inputs.len() == 0 {
        Seq::empty()
    } else {
        lookup_ranges(m, inputs[0]) + input_ranges(m, inputs.drop_first())
    }
}

/// Total value of a list of outputs.
pub open spec fn sum_outputs(outs: Seq<(Address, u64)>) -> int
    decreases outs.len(),
{
    if outs.len() == 0 {
        0
    } else {
        sum_outputs(outs.drop_last()) + outs.last().1
    }
}

/// A sum of ranges decomposes at the front as well as at the back.
pub proof fn lemma_range_sum_drop_first(rs: Seq<(u64, u64)>)
    requires
        rs.len() > 0,
    ensures
        range_sum(rs) == (rs[0].1 - rs[0].0) + range_sum(rs.drop_first()),
    decreases rs.len(),
{
    if rs.len() > 1 {
        assert(rs.drop_last().drop_first() =~= rs.drop_first().drop_last());
        assert(rs.drop_last()[0] == rs[0]);
        lemma_range_sum_drop_first(rs.drop_last());
        assert(rs.drop_first().last() == rs.last());
    } else {
        assert(rs.drop_first() =~= Seq::<(u64, u64)>::empty());
        assert(rs.drop_last() =~= Seq::<(u64, u64)>::empty());
    }
}

/// With valid ranges, every partial sum is between zero and the total.
pub proof fn lemma_range_sum_take(rs: Seq<(u64, u64)>, k: int)
    requires
        valid_ranges(rs),
        0 <= k <= rs.len(),
    ensures
        0 <= range_sum(rs.take(k)) <= range_sum(rs),
    decreases rs.len() - k,
{
    assert(valid_ranges(rs.take(k))) by {
        assert forall|i: int| 0 <= i < k implies (#[trigger] rs.take(k)[i]).0 < rs.take(k)[i].1
            <= Ordinal::SUPPLY by {
            assert(rs.take(k)[i] == rs[i]);
        }
    }
    lemma_range_sum_nonneg(rs.take(k));
    if k < rs.len() {
        assert(rs.take(k + 1).drop_last() =~= rs.take(k));
        assert(rs.take(k + 1).last() == rs[k]);
        lemma_range_sum_take(rs, k + 1);
    } else {
        assert(rs.take(k) =~= rs);
    }
}

/// With valid ranges, the sum is never negative.
pub proof fn lemma_range_sum_nonneg(rs: Seq<(u64, u64)>)
    requires
        valid_ranges(rs),
    ensures
        range_sum(rs) >= 0,
    decreases rs.len(),
{
    if rs.len() > 0 {
        assert(valid_ranges(rs.drop_last())) by {
            assert(forall|i: int| 0 <= i < rs.len() - 1 ==> rs.drop_last()[i] == rs[i]);
        }
        lemma_range_sum_nonneg(rs.drop_last());
    }
}

/// The position of a held identifier lies within the total.
pub proof fn lemma_offset_in_ranges_bounds(rs: Seq<(u64, u64)>, n: u64)
    requires
        valid_ranges(rs),
        ranges_contain(rs, n),
    ensures
        0 <= offset_in_ranges(rs, n) < range_sum(rs),
    decreases rs.len(),
{
    lemma_range_sum_drop_first(rs);
    if !(rs[0].0 <= n < rs[0].1) {
        assert(valid_ranges(rs.drop_first()));
        assert(ranges_contain(rs.drop_first(), n)) by {
            let i = choose|i: int| 0 <= i < rs.len() && (#[trigger] rs[i]).0 <= n < rs[i].1;
            assert(rs.drop_first()[i - 1] == rs[i]);
        }
        lemma_offset_in_ranges_bounds(rs.drop_first(), n);
    } else {
        assert(valid_ranges(rs.drop_first()));
        lemma_range_sum_nonneg(rs.drop_first());
    }
}

/// The position of an identifier in a concatenation: where the front part
/// holds it, its position there; otherwise past the whole front part.
pub proof fn lemma_offset_in_ranges_append(a: Seq<(u64, u64)>, b: Seq<(u64, u64)>, n: u64)
    ensures
        offset_in_ranges(a + b, n) == if ranges_contain(a, n) {
            offset_in_ranges(a, n)
        } else {
            range_sum(a) + offset_in_ranges(b, n)
        },
        ranges_contain(a + b, n) == (ranges_contain(a, n) || ranges_contain(b, n)),
    decreases a.len(),
{
    if a.len() == 0 {
        assert(a + b =~= b);
        assert(!ranges_contain(a, n));
        if ranges_contain(b, n) {
            let i = choose|i: int| 0 <= i < b.len() && (#[trigger] b[i]).0 <= n < b[i].1;
            assert((a + b)[i] == b[i]);
        }
    } else {
        let s = a + b;
        assert(s[0] == a[0]);
        assert(s.drop_first() =~= a.drop_first() + b);
        lemma_offset_in_ranges_append(a.drop_first(), b, n);
        lemma_range_sum_drop_first(a);
        if a[0].0 <= n < a[0].1 {
            assert(ranges_contain(a, n));
            assert(ranges_contain(s, n));
        } else {
            assert(ranges_contain(a, n) == ranges_contain(a.drop_first(), n)) by {
                if ranges_contain(a, n) {
                    let i = choose|i: int| 0 <= i < a.len() && (#[trigger] a[i]).0 <= n < a[i].1;
                    assert(a.drop_first()[i - 1] == a[i]);
                }
                if ranges_contain(a.drop_first(), n) {
                    let i = choose|i: int|
                        0 <= i < a.drop_first().len() && (#[trigger] a.drop_first()[i]).0 <= n
                            < a.drop_first()[i].1;
                    assert(a[i + 1] == a.drop_first()[i]);
                }
            }
        }
    }
}

/// What `find_host` finds: the first entry holding `n`, or nothing held
/// anywhere.
pub proof fn lemma_find_host_props(m: Seq<(OutPoint, Vec<(u64, u64)>)>, n: u64)
    ensures
        find_host(m, n) >= 0 ==> 0 <= find_host(m, n) < m.len() && ranges_contain(
            m[find_host(m, n)].1@,
            n,
        ) && forall|j: int| 0 <= j < find_host(m, n) ==> !ranges_contain((#[trigger] m[j]).1@, n),
        find_host(m, n) < 0 ==> forall|j: int|
            0 <= j < m.len() ==> !ranges_contain((#[trigger] m[j]).1@, n),
    decreases m.len(),
{
    if m.len() > 0 && !ranges_contain(m[0].1@, n) {
        lemma_find_host_props(m.drop_first(), n);
        let r = find_host(m.drop_first(), n);
        if r >= 0 {
            assert(m.drop_first()[r] == m[r + 1]);
            assert forall|j: int| 0 <= j < r + 1 implies !ranges_contain((#[trigger] m[j]).1@, n) by {
                if j > 0 {
                    assert(m.drop_first()[j - 1] == m[j]);
                }
            }
        } else {
            assert forall|j: int| 0 <= j < m.len() implies !ranges_contain(
                (#[trigger] m[j]).1@,
                n,
            ) by {
                if j > 0 {
                    assert(m.drop_first()[j - 1] == m[j]);
                }
            }
        }
    }
}

/// A single entry's ranges never exceed the manifest's total.
pub proof fn lemma_lookup_le_total(m: Seq<(OutPoint, Vec<(u64, u64)>)>, op: OutPoint)
    requires
        forall|i: int| 0 <= i < m.len() ==> valid_ranges((#[trigger] m[i]).1@),
    ensures
        range_sum(lookup_ranges(m, op)) <= manifest_total(m),
        manifest_total(m) >= 0,
        valid_ranges(lookup_ranges(m, op)),
    decreases m.len(),
{
    if m.len() == 0 {
    } else {
        lemma_manifest_total_drop_first(m);
        lemma_lookup_le_total(m.drop_first(), op);
        lemma_range_sum_nonneg(m[0].1@);
        if m[0].0 == op {
        }
    }
}

/// The manifest total decomposes at the front.
pub proof fn lemma_manifest_total_drop_first(m: Seq<(OutPoint, Vec<(u64, u64)>)>)
    requires
        m.len() > 0,
    ensures
        manifest_total(m) == range_sum(m[0].1@) + manifest_total(m.drop_first()),
    decreases m.len(),
{
    if m.len() > 1 {
        assert(m.drop_last().drop_first() =~= m.drop_first().drop_last());
        assert(m.drop_last()[0] == m[0]);
        lemma_manifest_total_drop_first(m.drop_last());
        assert(m.drop_first().last() == m.last());
    } else {
        assert(m.drop_first() =~= Seq::<(OutPoint, Vec<(u64, u64)>)>::empty());
        assert(m.drop_last() =~= Seq::<(OutPoint, Vec<(u64, u64)>)>::empty());
    }
}

/// Range sums add over concatenation.
pub proof fn lemma_range_sum_append(a: Seq<(u64, u64)>, b: Seq<(u64, u64)>)
    ensures
        range_sum(a + b) == range_sum(a) + range_sum(b),
    decreases b.len(),
{
    if b.len() == 0 {
        assert(a + b =~= a);
    } else {
        assert((a + b).drop_last() =~= a + b.drop_last());
        assert((a + b).last() == b.last());
        lemma_range_sum_append(a, b.drop_last());
    }
}

/// Validity distributes over concatenation.
pub proof fn lemma_valid_ranges_append(a: Seq<(u64, u64)>, b: Seq<(u64, u64)>)
    requires
        valid_ranges(a),
        valid_ranges(b),
    ensures
        valid_ranges(a + b),
{
    assert forall|i: int| 0 <= i < (a + b).len() implies (#[trigger] (a + b)[i]).0 < ((a + b)[i]).1
        <= Ordinal::SUPPLY by {
        if i < a.len() {
            assert((a + b)[i] == a[i]);
        } else {
            assert((a + b)[i] == b[i - a.len()]);
        }
    }
}

/// Appending an input appends its ranges.
pub proof fn lemma_input_ranges_push(
    m: Seq<(OutPoint, Vec<(u64, u64)>)>,
    s: Seq<OutPoint>,
    x: OutPoint,
)
    ensures
        input_ranges(m, s.push(x)) == input_ranges(m, s) + lookup_ranges(m, x),
    decreases s.len(),
{
    if s.len() == 0 {
        assert(s.push(x).drop_first() =~= Seq::<OutPoint>::empty());
        assert(input_ranges(m, s) + lookup_ranges(m, x) =~= lookup_ranges(m, x) + Seq::empty());
        assert(input_ranges(m, s.push(x)) == lookup_ranges(m, s.push(x)[0]) + input_ranges(
            m,
            s.push(x).drop_first(),
        ));
    } else {
        assert(s.push(x).drop_first() =~= s.drop_first().push(x));
        assert(s.push(x)[0] == s[0]);
        lemma_input_ranges_push(m, s.drop_first(), x);
        assert(lookup_ranges(m, s[0]) + (input_ranges(m, s.drop_first()) + lookup_ranges(m, x))
            =~= (lookup_ranges(m, s[0]) + input_ranges(m, s.drop_first())) + lookup_ranges(m, x));
    }
}

/// The ranges of a list of inputs split anywhere in the list.
pub proof fn lemma_input_ranges_split(m: Seq<(OutPoint, Vec<(u64, u64)>)>, s: Seq<OutPoint>, i: int)
    requires
        0 <= i <= s.len(),
    ensures
        input_ranges(m, s) == input_ranges(m, s.take(i)) + input_ranges(m, s.skip(i)),
    decreases i,
{
    if i == 0 {
        assert(s.take(0) =~= Seq::<OutPoint>::empty());
        assert(s.skip(0) =~= s);
        assert(input_ranges(m, s.take(0)) + input_ranges(m, s.skip(0)) =~= input_ranges(m, s));
    } else {
        assert(s.take(i)[0] == s[0]);
        assert(s.take(i).drop_first() =~= s.drop_first().take(i - 1));
        assert(s.skip(i) =~= s.drop_first().skip(i - 1));
        lemma_input_ranges_split(m, s.drop_first(), i - 1);
        assert(input_ranges(m, s.take(i)) == lookup_ranges(m, s[0]) + input_ranges(
            m,
            s.drop_first().take(i - 1),
        ));
        assert((lookup_ranges(m, s[0]) + input_ranges(m, s.drop_first().take(i - 1)))
            + input_ranges(m, s.drop_first().skip(i - 1)) =~= lookup_ranges(m, s[0]) + (
        input_ranges(m, s.drop_first().take(i - 1)) + input_ranges(
            m,
            s.drop_first().skip(i - 1),
        )));
    }
}

/// All input ranges are valid when the manifest's are.
pub proof fn lemma_input_ranges_valid(m: Seq<(OutPoint, Vec<(u64, u64)>)>, s: Seq<OutPoint>)
    requires
        forall|i: int| 0 <= i < m.len() ==> valid_ranges((#[trigger] m[i]).1@),
    ensures
        valid_ranges(input_ranges(m, s)),
    decreases s.len(),
{
    if s.len() > 0 {
        lemma_lookup_le_total(m, s[0]);
        lemma_input_ranges_valid(m, s.drop_first());
        lemma_valid_ranges_append(lookup_ranges(m, s[0]), input_ranges(m, s.drop_first()));
    }
}

/// The satoshis spent by a list of inputs: nonnegative, and at most the
/// supply for each input.
pub proof fn lemma_input_ranges_sum_bound(m: Seq<(OutPoint, Vec<(u64, u64)>)>, s: Seq<OutPoint>)
    requires
        manifest_wf(m),
    ensures
        0 <= range_sum(input_ranges(m, s)) <= s.len() * (Ordinal::SUPPLY as int),
    decreases s.len(),
{
    if s.len() == 0 {
    } else {
        lemma_lookup_le_total(m, s[0]);
        lemma_range_sum_nonneg(lookup_ranges(m, s[0]));
        lemma_input_ranges_sum_bound(m, s.drop_first());
        lemma_range_sum_append(lookup_ranges(m, s[0]), input_ranges(m, s.drop_first()));
        assert((s.len() - 1) * (Ordinal::SUPPLY as int) + Ordinal::SUPPLY == s.len() * (
        Ordinal::SUPPLY as int)) by (nonlinear_arith);
    }
}

/// In a manifest with distinct outpoints, looking an entry's outpoint up
/// yields that entry's ranges.
pub proof fn lemma_lookup_at_index(m: Seq<(OutPoint, Vec<(u64, u64)>)>, i: int)
    requires
        forall|a: int, b: int| 0 <= a < b < m.len() ==> m[a].0 != m[b].0,
        0 <= i < m.len(),
    ensures
        lookup_ranges(m, m[i].0) == m[i].1@,
    decreases i,
{
    if i > 0 {
        assert(m[0].0 != m[i].0);
        assert(m.drop_first()[i - 1] == m[i]);
        assert forall|a: int, b: int| 0 <= a < b < m.drop_first().len() implies m.drop_first()[a].0
            != m.drop_first()[b].0 by {
            assert(m.drop_first()[a] == m[a + 1]);
            assert(m.drop_first()[b] == m[b + 1]);
        }
        lemma_lookup_at_index(m.drop_first(), i - 1);
    }
}

/// The scripts of a list of addresses, in order.
pub open spec fn spks(s: Seq<Address>) -> Seq<Seq<u8>> {
    s.map_values(|a: Address| a.spk())
}

/// The ordinal-aware builder's state between stages.
pub struct TransactionBuilder {
    /// All change addresses the caller offered, used as a set.
    pub change_addresses: Vec<Address>,
    /// Change addresses not yet consumed, popped from the end.
    pub unused_change_addresses: Vec<Address>,
    /// The outpoints spent so far, in final input order.
    pub inputs: Vec<OutPoint>,
    /// The identifier to deliver.
    pub ordinal: Ordinal,
    /// The outputs so far: destination and value, in final output order.
    pub outputs: Vec<(Address, u64)>,
    /// The wallet's manifest: outpoints with their identifier ranges, in
    /// ascending outpoint order.
    pub ranges: Vec<(OutPoint, Vec<(u64, u64)>)>,
    /// Where the identifier goes.
    pub recipient: Address,
    /// Outpoints still available as filler, in manifest order.
    pub utxos: Vec<OutPoint>,
}

/// A well-formed builder state: a well-formed manifest, inputs and
/// candidates drawn from it, and no script beyond the wrapper bounds.
pub open spec fn builder_wf(b: &TransactionBuilder) -> bool {
    &&& manifest_wf(b.ranges@)
    &&& forall|i: int| 0 <= i < b.inputs@.len() ==> has_key(b.ranges@, #[trigger] b.inputs@[i])
    &&& forall|i: int| 0 <= i < b.utxos@.len() ==> has_key(b.ranges@, #[trigger] b.utxos@[i])
    &&& b.recipient.spk().len() <= 10_000
    &&& forall|i: int|
        0 <= i < b.outputs@.len() ==> (#[trigger] b.outputs@[i]).0.spk().len() <= 10_000
    &&& forall|i: int|
        0 <= i < b.unused_change_addresses@.len() ==> (
        #[trigger] b.unused_change_addresses@[i]).spk().len() <= 10_000
    &&& forall|i: int|
        0 <= i < b.change_addresses@.len() ==> (#[trigger] b.change_addresses@[i]).spk().len()
            <= 10_000
}

/// Copy a byte vector.
fn clone_bytes(v: &Vec<u8>) -> (r: Vec<u8>)
    ensures
        r@ == v@,
{
    let mut r: Vec<u8> = Vec::new();
    let mut i: usize = 0;
    while i < v.len()
        invariant
            i <= v@.len(),
            r@ == v@.take(i as int),
        decreases v@.len() - i,
    {
        r.push(v[i]);
        assert(r@ =~= v@.take(i + 1));
        i = i + 1;
    }
    assert(r@ =~= v@);
    r
}

/// Copy an address.
fn clone_address(a: &Address) -> (r: Address)
    ensures
        r.spk() == a.spk(),
{
    Address { script_pubkey: clone_bytes(&a.script_pubkey) }
}

/// The ranges the manifest assigns to `op`.
fn ranges_of<'a>(m: &'a Vec<(OutPoint, Vec<(u64, u64)>)>, op: &OutPoint) -> (r: &'a Vec<(u64, u64)>)
    requires
        has_key(m@, *op),
    ensures
        r@ == lookup_ranges(m@, *op),
{
    let mut i: usize = 0;
    proof {
        assert(m@.skip(0) =~= m@);
    }
    while i < m.len()
        invariant
            i <= m@.len(),
            has_key(m@.skip(i as int), *op),
            lookup_ranges(m@, *op) == lookup_ranges(m@.skip(i as int), *op),
        decreases m@.len() - i,
    {
        if m[i].0 == *op {
            assert(m@.skip(i as int)[0] == m@[i as int]);
            return &m[i].1;
        }
        proof {
            assert(m@.skip(i as int)[0] == m@[i as int]);
            assert(m@.skip(i as int).drop_first() =~= m@.skip(i + 1));
            let j = choose|j: int|
                0 <= j < m@.skip(i as int).len() && (#[trigger] m@.skip(i as int)[j]).0 == *op;
            assert(m@.skip(i + 1)[j - 1] == m@.skip(i as int)[j]);
        }
        i = i + 1;
    }
    proof {
        assert(false);
    }
    &m[0].1
}

/// Total satoshis in a wallet output's ranges.
fn utxo_total(rs: &Vec<(u64, u64)>) -> (t: u64)
    requires
        valid_ranges(rs@),
        range_sum(rs@) <= u64::MAX,
    ensures
        t == range_sum(rs@),
{
    let mut total: u64 = 0;
    let mut i: usize = 0;
    while i < rs.len()
        invariant
            i <= rs@.len(),
            valid_ranges(rs@),
            range_sum(rs@) <= u64::MAX,
            total == range_sum(rs@.take(i as int)),
        decreases rs@.len() - i,
    {
        proof {
            lemma_range_sum_take(rs@, i + 1);
            assert(rs@.take(i + 1).drop_last() =~= rs@.take(i as int));
            assert(rs@.take(i + 1).last() == rs@[i as int]);
        }
        total = total + (rs[i].1 - rs[i].0);
        i = i + 1;
    }
    assert(rs@.take(rs@.len() as int) =~= rs@);
    total
}

/// Whether some range of `rs` holds identifier `n`.
fn contains_ordinal(rs: &Vec<(u64, u64)>, n: u64) -> (r: bool)
    ensures
        r == ranges_contain(rs@, n),
{
    let mut i: usize = 0;
    while i < rs.len()
        invariant
            i <= rs@.len(),
            forall|j: int| 0 <= j < i ==> !((#[trigger] rs@[j]).0 <= n < rs@[j].1),
        decreases rs@.len() - i,
    {
        if rs[i].0 <= n && n < rs[i].1 {
            return true;
        }
        i = i + 1;
    }
    false
}

/// The first manifest entry whose ranges hold identifier `n`.
fn find_ordinal_index(m: &Vec<(OutPoint, Vec<(u64, u64)>)>, n: u64) -> (r: Option<usize>)
    ensures
        match r {
            Some(i) => i == find_host(m@, n),
            None => find_host(m@, n) < 0,
        },
{
    proof {
        lemma_find_host_props(m@, n);
    }
    let mut i: usize = 0;
    while i < m.len()
        invariant
            i <= m@.len(),
            forall|j: int| 0 <= j < i ==> !ranges_contain((#[trigger] m@[j]).1@, n),
        decreases m@.len() - i,
    {
        if contains_ordinal(&m[i].1, n) {
            proof {
                lemma_find_host_props(m@, n);
                let fh = find_host(m@, n);
                if fh < 0 {
                    assert(!ranges_contain(m@[i as int].1@, n));
                }
                if 0 <= fh < i {
                    assert(!ranges_contain(m@[fh].1@, n));
                }
                if fh > i {
                    assert(!ranges_contain(m@[i as int].1@, n));
                }
            }
            return Some(i);
        }
        i = i + 1;
    }
    proof {
        lemma_find_host_props(m@, n);
        if find_host(m@, n) >= 0 {
            assert(ranges_contain(m@[find_host(m@, n)].1@, n));
        }
    }
    None
}

impl TransactionBuilder {
    /// Largest value the recipient output may carry.
    pub const MAX_POSTAGE: u64 = 2 * 10_000;

    /// The exact fee rate paid, in satoshis per virtual byte.
    pub const TARGET_FEE_RATE: u64 = 1;

    /// Value the recipient output is trimmed to when it runs over.
    pub const TARGET_POSTAGE: u64 = 10_000;

    /// Fresh state: no inputs, no outputs, every wallet output a candidate,
    /// every change address unused.
    pub fn new(
        ranges: Vec<(OutPoint, Vec<(u64, u64)>)>,
        ordinal: Ordinal,
        recipient: Address,
        change: Vec<Address>,
    ) -> (b: TransactionBuilder)
        ensures
            b.ranges == ranges,
            b.ordinal == ordinal,
            b.recipient == recipient,
            b.unused_change_addresses == change,
            b.change_addresses@.len() == change@.len(),
            spks(b.change_addresses@) == spks(change@),
            b.inputs@.len() == 0,
            b.outputs@.len() == 0,
            b.utxos@ == manifest_keys(ranges@),
    {
        let mut utxos: Vec<OutPoint> = Vec::new();
        let mut i: usize = 0;
        while i < ranges.len()
            invariant
                i <= ranges@.len(),
                utxos@ == manifest_keys(ranges@).take(i as int),
            decreases ranges@.len() - i,
        {
            utxos.push(ranges[i].0);
            assert(utxos@ =~= manifest_keys(ranges@).take(i + 1));
            i = i + 1;
        }
        assert(utxos@ =~= manifest_keys(ranges@));
        let mut change_addresses: Vec<Address> = Vec::new();
        let mut j: usize = 0;
        while j < change.len()
            invariant
                j <= change@.len(),
                change_addresses@.len() == j,
                spks(change_addresses@) == spks(change@).take(j as int),
            decreases change@.len() - j,
        {
            change_addresses.push(clone_address(&change[j]));
            assert(spks(change_addresses@) =~= spks(change@).take(j + 1));
            j = j + 1;
        }
        assert(spks(change_addresses@) =~= spks(change@));
        TransactionBuilder {
            change_addresses,
            utxos,
            inputs: Vec::new(),
            ordinal,
            outputs: Vec::new(),
            ranges,
            recipient,
            unused_change_addresses: change,
        }
    }

    /// Stage one: find the wallet output holding the ordinal, spend it as
    /// the first input, and send its whole value to the recipient.
    pub fn select_ordinal(self) -> (r: Result<TransactionBuilder, Error>)
        requires
            builder_wf(&self),
            self.inputs@.len() == 0,
            self.outputs@.len() == 0,
            self.utxos@ == manifest_keys(self.ranges@),
        ensures
            match r {
                Ok(b) => {
                    let host = find_host(self.ranges@, self.ordinal.0);
                    &&& host >= 0
                    &&& b.inputs@ == seq![self.ranges@[host].0]
                    &&& b.outputs@.len() == 1
                    &&& b.outputs@[0].0.spk() == self.recipient.spk()
                    &&& b.outputs@[0].1 == range_sum(self.ranges@[host].1@)
                    &&& b.utxos@ == manifest_keys(self.ranges@).remove(host)
                    &&& b.ranges == self.ranges
                    &&& b.ordinal == self.ordinal
                    &&& b.recipient == self.recipient
                    &&& b.change_addresses == self.change_addresses
                    &&& b.unused_change_addresses == self.unused_change_addresses
                    &&& builder_wf(&b)
                    &&& ranges_contain(input_ranges(b.ranges@, b.inputs@), b.ordinal.0)
                    &&& input_ranges(b.ranges@, b.inputs@) == self.ranges@[host].1@
                    &&& sum_outputs(b.outputs@) == range_sum(input_ranges(b.ranges@, b.inputs@))
                },
                Err(e) => e == Error::NotInWallet(self.ordinal) && find_host(
                    self.ranges@,
                    self.ordinal.0,
                ) < 0 && !ranges_contain(input_ranges(self.ranges@, self.utxos@), self.ordinal.0),
            },
    {
        let n = self.ordinal.0;
        match find_ordinal_index(&self.ranges, n) {
            None => {
                proof {
                    lemma_find_host_props(self.ranges@, n);
                    lemma_no_host_no_contain(self.ranges@, self.utxos@, n);
                }
                Err(Error::NotInWallet(self.ordinal))
            },
            Some(i) => {
                proof {
                    lemma_find_host_props(self.ranges@, n);
                    lemma_lookup_at_index(self.ranges@, i as int);
                    lemma_lookup_le_total(self.ranges@, self.ranges@[i as int].0);
                }
                let mut b = self;
                let op = b.ranges[i].0;
                let total = utxo_total(&b.ranges[i].1);
                b.utxos.remove(i);
                b.inputs.push(op);
                let recipient_clone = clone_address(&b.recipient);
                b.outputs.push((recipient_clone, total));
                proof {
                    let m2 = b.ranges@;
                    assert(b.inputs@ =~= seq![m2[i as int].0]);
                    assert(b.inputs@[0] == op);
                    assert(b.inputs@.drop_first() =~= Seq::<OutPoint>::empty());
                    assert(input_ranges(m2, b.inputs@.drop_first()) == Seq::<(u64, u64)>::empty());
                    assert(input_ranges(m2, b.inputs@) == lookup_ranges(m2, op) + input_ranges(
                        m2,
                        b.inputs@.drop_first(),
                    ));
                    assert(lookup_ranges(m2, op) + Seq::<(u64, u64)>::empty() =~= lookup_ranges(
                        m2,
                        op,
                    ));
                    assert(b.outputs@.drop_last() =~= Seq::<(Address, u64)>::empty());
                    assert(sum_outputs(Seq::<(Address, u64)>::empty()) == 0);
                    assert(b.outputs@.last().1 == total);
                    assert forall|j: int| 0 <= j < b.outputs@.len() implies (
                    #[trigger] b.outputs@[j]).0.spk().len() <= 10_000 by {
                        assert(b.outputs@[j].0.spk() == self.recipient.spk());
                    }
                    assert forall|j: int| 0 <= j < b.inputs@.len() implies has_key(
                        m2,
                        #[trigger] b.inputs@[j],
                    ) by {
                        assert(b.inputs@[j] == m2[i as int].0);
                    }
                    assert forall|j: int| 0 <= j < b.utxos@.len() implies has_key(
                        m2,
                        #[trigger] b.utxos@[j],
                    ) by {
                        if j < i {
                            assert(b.utxos@[j] == self.utxos@[j]);
                        } else {
                            assert(b.utxos@[j] == self.utxos@[j + 1]);
                        }
                    }
                }
                Ok(b)
            },
        }
    }

    /// The position of the ordinal within the satoshis the chosen inputs
    /// spend, in input order.
    pub fn calculate_ordinal_offset(&self) -> (r: u64)
        requires
            builder_wf(self),
            ranges_contain(input_ranges(self.ranges@, self.inputs@), self.ordinal.0),
            range_sum(input_ranges(self.ranges@, self.inputs@)) <= u64::MAX,
        ensures
            r == offset_in_ranges(input_ranges(self.ranges@, self.inputs@), self.ordinal.0),
    {
        let ghost m = self.ranges@;
        let ghost flat = input_ranges(self.ranges@, self.inputs@);
        let n = self.ordinal.0;
        proof {
            lemma_input_ranges_valid(m, self.inputs@);
            lemma_offset_in_ranges_bounds(flat, n);
        }
        let mut offset: u64 = 0;
        let mut i: usize = 0;
        while i < self.inputs.len()
            invariant
                i <= self.inputs@.len(),
                builder_wf(self),
                n == self.ordinal.0,
                m == self.ranges@,
                flat == input_ranges(m, self.inputs@),
                ranges_contain(flat, n),
                range_sum(flat) <= u64::MAX,
                valid_ranges(flat),
                0 <= offset_in_ranges(flat, n) < range_sum(flat),
                !ranges_contain(input_ranges(m, self.inputs@.take(i as int)), n),
                offset == range_sum(input_ranges(m, self.inputs@.take(i as int))),
            decreases self.inputs@.len() - i,
        {
            let ghost prefix = input_ranges(m, self.inputs@.take(i as int));
            let rs = ranges_of(&self.ranges, &self.inputs[i]);
            let ghost rest = input_ranges(m, self.inputs@.skip(i + 1));
            proof {
                lemma_input_ranges_split(m, self.inputs@, i as int);
                assert(self.inputs@.skip(i as int)[0] == self.inputs@[i as int]);
                assert(self.inputs@.skip(i as int).drop_first() =~= self.inputs@.skip(i + 1));
                assert(flat == prefix + (rs@ + rest));
                lemma_input_ranges_valid(m, self.inputs@.take(i as int));
                lemma_lookup_le_total(m, self.inputs@[i as int]);
                lemma_input_ranges_valid(m, self.inputs@.skip(i + 1));
            }
            let mut k: usize = 0;
            while k < rs.len()
                invariant
                    k <= rs@.len(),
                    builder_wf(self),
                    n == self.ordinal.0,
                    m == self.ranges@,
                    flat == input_ranges(m, self.inputs@),
                    i < self.inputs@.len(),
                    rs@ == lookup_ranges(m, self.inputs@[i as int]),
                    prefix == input_ranges(m, self.inputs@.take(i as int)),
                    rest == input_ranges(m, self.inputs@.skip(i + 1)),
                    flat == prefix + (rs@ + rest),
                    ranges_contain(flat, n),
                    range_sum(flat) <= u64::MAX,
                    valid_ranges(flat),
                    valid_ranges(prefix),
                    valid_ranges(rs@),
                    0 <= offset_in_ranges(flat, n) < range_sum(flat),
                    !ranges_contain(prefix, n),
                    forall|j: int| 0 <= j < k ==> !((#[trigger] rs@[j]).0 <= n < rs@[j].1),
                    offset == range_sum(prefix) + range_sum(rs@.take(k as int)),
                decreases rs@.len() - k,
            {
                proof {
                    lemma_range_sum_take(rs@, k + 1);
                    assert(rs@.take(k + 1).drop_last() =~= rs@.take(k as int));
                    assert(rs@.take(k + 1).last() == rs@[k as int]);
                    lemma_range_sum_nonneg(prefix);
                    lemma_input_ranges_valid(m, self.inputs@.skip(i + 1));
                    lemma_range_sum_nonneg(rest);
                    lemma_range_sum_append(prefix, rs@ + rest);
                    lemma_range_sum_append(rs@, rest);
                    assert(range_sum(flat) == range_sum(prefix) + range_sum(rs@) + range_sum(
                        rest,
                    ));
                }
                if rs[k].0 <= n && n < rs[k].1 {
                    proof {
                        lemma_offset_prefix_sum(prefix, rs@, rest, n, k as int);
                    }
                    return offset + (n - rs[k].0);
                }
                offset = offset + (rs[k].1 - rs[k].0);
                k = k + 1;
            }
            proof {
                assert(rs@.take(rs@.len() as int) =~= rs@);
                assert(!ranges_contain(rs@, n)) by {
                    if ranges_contain(rs@, n) {
                        let j = choose|j: int|
                            0 <= j < rs@.len() && (#[trigger] rs@[j]).0 <= n < rs@[j].1;
                    }
                }
                lemma_input_ranges_push(m, self.inputs@.take(i as int), self.inputs@[i as int]);
                assert(self.inputs@.take(i as int).push(self.inputs@[i as int]) =~= self.inputs@
                    .take(i + 1));
                lemma_range_sum_append(prefix, rs@);
                assert(!ranges_contain(prefix + rs@, n)) by {
                    lemma_offset_in_ranges_append(prefix, rs@, n);
                }
            }
            i = i + 1;
        }
        proof {
            assert(self.inputs@.take(self.inputs@.len() as int) =~= self.inputs@);
            assert(false);
        }
        0
    }
}

/// The script lengths of a list of outputs.
pub open spec fn output_spk_lens(outs: Seq<(Address, u64)>) -> Seq<nat> {
    outs.map_values(|o: (Address, u64)| o.0.spk().len())
}

/// The fee the builder pays: the target rate times the virtual size of the
/// placeholder transaction with the current inputs and outputs, every
/// input carrying the 138-byte worst-case signature script.
pub open spec fn estimated_fee(b: &TransactionBuilder) -> int {
    (TransactionBuilder::TARGET_FEE_RATE as int) * legacy_tx_vsize(
        b.inputs@.len(),
        138,
        output_spk_lens(b.outputs@),
    )
}

/// The first candidate that is cardinal and worth at least `min`, or `-1`.
pub open spec fn find_cardinal(
    m: Seq<(OutPoint, Vec<(u64, u64)>)>,
    utxos: Seq<OutPoint>,
    min: int,
) -> int
    decreases utxos.len(),
{
    if utxos.len() == 0 {
        -1
    } else if utxo_cardinal(lookup_ranges(m, utxos[0])) && range_sum(lookup_ranges(m, utxos[0]))
        >= min {
        0
    } else {
        let r = find_cardinal(m, utxos.drop_first(), min);
        if r < 0 {
            -1
        } else {
            r + 1
        }
    }
}

/// What `find_cardinal` finds: the first qualifying candidate, or none.
pub proof fn lemma_find_cardinal_props(
    m: Seq<(OutPoint, Vec<(u64, u64)>)>,
    utxos: Seq<OutPoint>,
    min: int,
)
    ensures
        find_cardinal(m, utxos, min) >= 0 ==> 0 <= find_cardinal(m, utxos, min) < utxos.len()
            && utxo_cardinal(lookup_ranges(m, utxos[find_cardinal(m, utxos, min)])) && range_sum(
            lookup_ranges(m, utxos[find_cardinal(m, utxos, min)]),
        ) >= min && forall|j: int|
            0 <= j < find_cardinal(m, utxos, min) ==> !(utxo_cardinal(
                lookup_ranges(m, #[trigger] utxos[j]),
            ) && range_sum(lookup_ranges(m, utxos[j])) >= min),
        find_cardinal(m, utxos, min) < 0 ==> forall|j: int|
            0 <= j < utxos.len() ==> !(utxo_cardinal(lookup_ranges(m, #[trigger] utxos[j]))
                && range_sum(lookup_ranges(m, utxos[j])) >= min),
    decreases utxos.len(),
{
    if utxos.len() > 0 && !(utxo_cardinal(lookup_ranges(m, utxos[0])) && range_sum(
        lookup_ranges(m, utxos[0]),
    ) >= min) {
        lemma_find_cardinal_props(m, utxos.drop_first(), min);
        let r = find_cardinal(m, utxos.drop_first(), min);
        if r >= 0 {
            assert(utxos.drop_first()[r] == utxos[r + 1]);
            assert forall|j: int| 0 <= j < r + 1 implies !(utxo_cardinal(
                lookup_ranges(m, #[trigger] utxos[j]),
            ) && range_sum(lookup_ranges(m, utxos[j])) >= min) by {
                if j > 0 {
                    assert(utxos.drop_first()[j - 1] == utxos[j]);
                }
            }
        } else {
            assert forall|j: int| 0 <= j < utxos.len() implies !(utxo_cardinal(
                lookup_ranges(m, #[trigger] utxos[j]),
            ) && range_sum(lookup_ranges(m, utxos[j])) >= min) by {
                if j > 0 {
                    assert(utxos.drop_first()[j - 1] == utxos[j]);
                }
            }
        }
    }
}

/// With the wrapper's bounds, the placeholder's virtual size stays small.
pub proof fn lemma_vsize_bound(input_count: nat, lens: Seq<nat>)
    requires
        input_count <= 100_000,
        lens.len() <= 100_000,
        forall|i: int| 0 <= i < lens.len() ==> (#[trigger] lens[i]) <= 10_000,
    ensures
        legacy_tx_vsize(input_count, 138, lens) <= 1_020_000_000,
{
    lemma_outputs_size_bound(lens);
    assert(input_count * 179 <= 100_000 * 179) by (nonlinear_arith)
        requires
            input_count <= 100_000,
    ;
}

/// Output sizes add up to little when every script is small.
pub proof fn lemma_outputs_size_bound(lens: Seq<nat>)
    requires
        forall|i: int| 0 <= i < lens.len() ==> (#[trigger] lens[i]) <= 10_000,
    ensures
        outputs_size(lens) <= lens.len() * 10_012,
    decreases lens.len(),
{
    if lens.len() > 0 {
        assert forall|i: int| 0 <= i < lens.drop_last().len() implies (
        #[trigger] lens.drop_last()[i]) <= 10_000 by {
            assert(lens.drop_last()[i] == lens[i]);
        }
        lemma_outputs_size_bound(lens.drop_last());
        assert((lens.len() - 1) * 10_012 + 10_012 == lens.len() * 10_012) by (nonlinear_arith);
    }
}

/// Partial output sums lie between zero and the total.
pub proof fn lemma_sum_outputs_take(outs: Seq<(Address, u64)>, k: int)
    requires
        0 <= k <= outs.len(),
    ensures
        0 <= sum_outputs(outs.take(k)) <= sum_outputs(outs),
    decreases outs.len() - k,
{
    lemma_sum_outputs_nonneg(outs.take(k));
    if k < outs.len() {
        assert(outs.take(k + 1).drop_last() =~= outs.take(k));
        assert(outs.take(k + 1).last() == outs[k]);
        lemma_sum_outputs_take(outs, k + 1);
    } else {
        assert(outs.take(k) =~= outs);
    }
}

/// Output sums are never negative.
pub proof fn lemma_sum_outputs_nonneg(outs: Seq<(Address, u64)>)
    ensures
        sum_outputs(outs) >= 0,
    decreases outs.len(),
{
    if outs.len() > 0 {
        lemma_sum_outputs_nonneg(outs.drop_last());
    }
}

/// Whether a wallet output is cardinal: every range starts on a common
/// identifier.
fn utxo_is_cardinal(rs: &Vec<(u64, u64)>) -> (r: bool)
    requires
        valid_ranges(rs@),
    ensures
        r == utxo_cardinal(rs@),
{
    let mut k: usize = 0;
    while k < rs.len()
        invariant
            k <= rs@.len(),
            valid_ranges(rs@),
            forall|j: int| 0 <= j < k ==> ordinal_third((#[trigger] rs@[j]).0 as nat) != 0,
        decreases rs@.len() - k,
    {
        let start = Ordinal(rs[k].0);
        proof {
            assert(rs@[k as int].0 < rs@[k as int].1 <= Ordinal::SUPPLY);
            crate::ordinal::lemma_is_common_agrees_with_rarity(start.0 as nat);
        }
        let rarity = start.rarity();
        if rarity != Rarity::Common {
            return false;
        }
        k = k + 1;
    }
    true
}

impl TransactionBuilder {
    /// Scan the remaining candidates in order and take the first cardinal
    /// one worth at least `minimum_amount`, removing it from the pool.
    pub fn select_cardinal_utxo(&mut self, minimum_amount: u64) -> (r: Result<(OutPoint, u64), Error>)
        requires
            builder_wf(old(self)),
        ensures
            builder_wf(final(self)),
            final(self).ranges@ == old(self).ranges@,
            final(self).ordinal == old(self).ordinal,
            final(self).recipient == old(self).recipient,
            final(self).inputs@ == old(self).inputs@,
            final(self).outputs@ == old(self).outputs@,
            final(self).change_addresses@ == old(self).change_addresses@,
            final(self).unused_change_addresses@ == old(self).unused_change_addresses@,
            match r {
                Ok((op, amt)) => {
                    let idx = find_cardinal(
                        old(self).ranges@,
                        old(self).utxos@,
                        minimum_amount as int,
                    );
                    &&& idx >= 0
                    &&& op == old(self).utxos@[idx]
                    &&& amt == range_sum(lookup_ranges(old(self).ranges@, op))
                    &&& amt >= minimum_amount
                    &&& amt <= Ordinal::SUPPLY
                    &&& utxo_cardinal(lookup_ranges(old(self).ranges@, op))
                    &&& has_key(old(self).ranges@, op)
                    &&& final(self).utxos@ == old(self).utxos@.remove(idx)
                },
                Err(e) => e == Error::NotEnoughCardinalUtxos && final(self).utxos@ == old(
                    self,
                ).utxos@ && find_cardinal(
                    old(self).ranges@,
                    old(self).utxos@,
                    minimum_amount as int,
                ) < 0,
            },
    {
        proof {
            lemma_find_cardinal_props(self.ranges@, self.utxos@, minimum_amount as int);
        }
        let ghost m = self.ranges@;
        let ghost utxos0 = self.utxos@;
        let mut i: usize = 0;
        while i < self.utxos.len()
            invariant
                i <= self.utxos@.len(),
                builder_wf(self),
                m == old(self).ranges@,
                utxos0 == old(self).utxos@,
                m == self.ranges@,
                utxos0 == self.utxos@,
                self.ordinal == old(self).ordinal,
                self.recipient == old(self).recipient,
                self.inputs@ == old(self).inputs@,
                self.outputs@ == old(self).outputs@,
                self.change_addresses@ == old(self).change_addresses@,
                self.unused_change_addresses@ == old(self).unused_change_addresses@,
                forall|j: int|
                    0 <= j < i ==> !(utxo_cardinal(lookup_ranges(m, #[trigger] utxos0[j]))
                        && range_sum(lookup_ranges(m, utxos0[j])) >= minimum_amount),
            decreases self.utxos@.len() - i,
        {
            let rs = ranges_of(&self.ranges, &self.utxos[i]);
            proof {
                lemma_lookup_le_total(m, utxos0[i as int]);
            }
            if utxo_is_cardinal(rs) {
                let amount = utxo_total(rs);
                if amount >= minimum_amount {
                    proof {
                        lemma_find_cardinal_props(m, utxos0, minimum_amount as int);
                        let fc = find_cardinal(m, utxos0, minimum_amount as int);
                        if fc < 0 {
                            assert(!(utxo_cardinal(lookup_ranges(m, utxos0[i as int]))
                                && range_sum(lookup_ranges(m, utxos0[i as int]))
                                >= minimum_amount));
                        }
                        if 0 <= fc < i {
                            assert(!(utxo_cardinal(lookup_ranges(m, utxos0[fc])) && range_sum(
                                lookup_ranges(m, utxos0[fc]),
                            ) >= minimum_amount));
                        }
                        if fc > i {
                            assert(!(utxo_cardinal(lookup_ranges(m, utxos0[i as int]))
                                && range_sum(lookup_ranges(m, utxos0[i as int]))
                                >= minimum_amount));
                        }
                    }
                    let utxo = self.utxos[i];
                    self.utxos.remove(i);
                    proof {
                        assert forall|j: int| 0 <= j < self.utxos@.len() implies has_key(
                            m,
                            #[trigger] self.utxos@[j],
                        ) by {
                            if j < i {
                                assert(self.utxos@[j] == utxos0[j]);
                            } else {
                                assert(self.utxos@[j] == utxos0[j + 1]);
                            }
                        }
                    }
                    return Ok((utxo, amount));
                }
            }
            i = i + 1;
        }
        proof {
            lemma_find_cardinal_props(m, utxos0, minimum_amount as int);
            let fc = find_cardinal(m, utxos0, minimum_amount as int);
            if fc >= 0 {
                assert(!(utxo_cardinal(lookup_ranges(m, utxos0[fc])) && range_sum(
                    lookup_ranges(m, utxos0[fc]),
                ) >= minimum_amount));
            }
        }
        Err(Error::NotEnoughCardinalUtxos)
    }

    /// Stage two: if the ordinal does not sit at the very start of the
    /// spent satoshis, prepend a change output of exactly the ordinal's
    /// offset, debiting the recipient, so that the recipient output begins
    /// exactly at the ordinal.
    pub fn align_ordinal(self) -> (r: TransactionBuilder)
        requires
            builder_wf(&self),
            self.outputs@.len() == 1,
            self.outputs@[0].0.spk() == self.recipient.spk(),
            ranges_contain(input_ranges(self.ranges@, self.inputs@), self.ordinal.0),
            range_sum(input_ranges(self.ranges@, self.inputs@)) <= u64::MAX,
            offset_in_ranges(input_ranges(self.ranges@, self.inputs@), self.ordinal.0)
                <= self.outputs@[0].1,
            offset_in_ranges(input_ranges(self.ranges@, self.inputs@), self.ordinal.0) != 0
                ==> self.unused_change_addresses@.len() >= 1,
        ensures
            ({
                let off = offset_in_ranges(input_ranges(self.ranges@, self.inputs@), self.ordinal.0);
                &&& builder_wf(&r)
                &&& r.ranges@ == self.ranges@
                &&& r.ordinal == self.ordinal
                &&& r.recipient == self.recipient
                &&& r.inputs@ == self.inputs@
                &&& r.utxos@ == self.utxos@
                &&& r.change_addresses@ == self.change_addresses@
                &&& if off == 0 {
                    r.outputs@ == self.outputs@ && r.unused_change_addresses@
                        == self.unused_change_addresses@
                } else {
                    &&& r.unused_change_addresses@ == self.unused_change_addresses@.drop_last()
                    &&& r.outputs@.len() == 2
                    &&& r.outputs@[0].0 == self.unused_change_addresses@.last()
                    &&& r.outputs@[0].1 == off
                    &&& r.outputs@[1].0 == self.outputs@[0].0
                    &&& r.outputs@[1].1 == self.outputs@[0].1 - off
                }
                &&& sum_outputs(r.outputs@) == sum_outputs(self.outputs@)
            }),
    {
        let ordinal_offset = self.calculate_ordinal_offset();
        let mut b = self;
        if ordinal_offset != 0 {
            let chg = match b.unused_change_addresses.pop() {
                Some(a) => a,
                None => {
                    proof {
                        assert(false);
                    }
                    Address { script_pubkey: Vec::new() }
                },
            };
            b.outputs.insert(0, (chg, ordinal_offset));
            let (addr, amount) = match b.outputs.pop() {
                Some(p) => p,
                None => {
                    proof {
                        assert(false);
                    }
                    (Address { script_pubkey: Vec::new() }, 0)
                },
            };
            b.outputs.push((addr, amount - ordinal_offset));
            proof {
                assert(b.outputs@.len() == 2);
                assert(b.outputs@[0].0 == self.unused_change_addresses@.last());
                assert(b.outputs@[1].0 == self.outputs@[0].0);
                assert(b.outputs@[1].1 == self.outputs@[0].1 - ordinal_offset);
                assert(sum_outputs(Seq::<(Address, u64)>::empty()) == 0);
                assert(b.outputs@.drop_last() =~= seq![b.outputs@[0]]);
                assert(seq![b.outputs@[0]].drop_last() =~= Seq::<(Address, u64)>::empty());
                assert(seq![b.outputs@[0]].last() == b.outputs@[0]);
                assert(sum_outputs(seq![b.outputs@[0]]) == b.outputs@[0].1);
                assert(self.outputs@.drop_last() =~= Seq::<(Address, u64)>::empty());
                assert(sum_outputs(Seq::<(Address, u64)>::empty()) == 0);
            }
        }
        proof {
            assert forall|i: int| 0 <= i < b.outputs@.len() implies (
            #[trigger] b.outputs@[i]).0.spk().len() <= 10_000 by {
                if b.outputs@.len() == 2 {
                    if i == 0 {
                        assert(b.outputs@[0].0 == self.unused_change_addresses@.last());
                    } else {
                        assert(b.outputs@[1].0.spk() == self.outputs@[0].0.spk());
                    }
                }
            }
            assert forall|i: int| 0 <= i < b.unused_change_addresses@.len() implies (
            #[trigger] b.unused_change_addresses@[i]).spk().len() <= 10_000 by {
                assert(b.unused_change_addresses@[i] == self.unused_change_addresses@[i]);
            }
        }
        b
    }

    /// Stage three: if an alignment output exists and sits below the
    /// recipient script's dust limit, spend a cardinal output as the first
    /// input and credit the alignment output with its whole value.
    pub fn pad_alignment_output(self) -> (r: Result<TransactionBuilder, Error>)
        requires
            builder_wf(&self),
            self.outputs@.len() >= 1,
            self.outputs@[0].1 <= Ordinal::SUPPLY,
        ensures
            ({
                let needs_pad = self.outputs@[0].0.spk() != self.recipient.spk()
                    && self.outputs@[0].1 < dust_of(self.recipient.spk());
                let idx = find_cardinal(
                    self.ranges@,
                    self.utxos@,
                    dust_of(self.recipient.spk()) - self.outputs@[0].1,
                );
                match r {
                    Ok(b) => {
                        &&& builder_wf(&b)
                        &&& b.ranges@ == self.ranges@
                        &&& b.ordinal == self.ordinal
                        &&& b.recipient == self.recipient
                        &&& b.change_addresses@ == self.change_addresses@
                        &&& b.unused_change_addresses@ == self.unused_change_addresses@
                        &&& if !needs_pad {
                            b.inputs@ == self.inputs@ && b.outputs@ == self.outputs@ && b.utxos@
                                == self.utxos@
                        } else {
                            let op = self.utxos@[idx];
                            let amt = range_sum(lookup_ranges(self.ranges@, op));
                            &&& idx >= 0
                            &&& b.inputs@ == self.inputs@.insert(0, op)
                            &&& b.utxos@ == self.utxos@.remove(idx)
                            &&& utxo_cardinal(lookup_ranges(self.ranges@, op))
                            &&& amt >= dust_of(self.recipient.spk()) - self.outputs@[0].1
                            &&& b.outputs@.len() == self.outputs@.len()
                            &&& b.outputs@[0].0 == self.outputs@[0].0
                            &&& b.outputs@[0].1 == self.outputs@[0].1 + amt
                            &&& forall|i: int|
                                1 <= i < b.outputs@.len() ==> #[trigger] b.outputs@[i]
                                    == self.outputs@[i]
                        }
                    },
                    Err(e) => e == Error::NotEnoughCardinalUtxos && needs_pad && idx < 0,
                }
            }),
    {
        let mut b = self;
        let needs_check = !b.outputs[0].0.same_script(&b.recipient);
        if needs_check {
            let dust = dust_limit(&b.recipient.script_pubkey);
            if b.outputs[0].1 < dust {
                let (utxo, amount) = match b.select_cardinal_utxo(dust - b.outputs[0].1) {
                    Ok(p) => p,
                    Err(e) => {
                        return Err(e);
                    },
                };
                b.inputs.insert(0, utxo);
                let first_amount = b.outputs[0].1;
                let first_addr = clone_address(&b.outputs[0].0);
                let ghost outputs_before = b.outputs@;
                let elem = &mut b.outputs[0];
                elem.1 = first_amount + amount;
                proof {
                    assert(b.outputs@ =~= outputs_before.update(
                        0,
                        (outputs_before[0].0, (first_amount + amount) as u64),
                    ));
                    assert forall|i: int| 0 <= i < b.inputs@.len() implies has_key(
                        b.ranges@,
                        #[trigger] b.inputs@[i],
                    ) by {
                        if i == 0 {
                        } else {
                            assert(b.inputs@[i] == self.inputs@[i - 1]);
                        }
                    }
                    assert forall|i: int| 0 <= i < b.outputs@.len() implies (
                    #[trigger] b.outputs@[i]).0.spk().len() <= 10_000 by {
                        if i > 0 {
                            assert(b.outputs@[i] == self.outputs@[i]);
                        }
                    }
                }
            }
        }
        Ok(b)
    }
}

/// Total value of a list of outputs.
fn sum_output_values(outs: &Vec<(Address, u64)>) -> (t: u64)
    requires
        sum_outputs(outs@) <= u64::MAX,
    ensures
        t == sum_outputs(outs@),
{
    let mut total: u64 = 0;
    let mut i: usize = 0;
    while i < outs.len()
        invariant
            i <= outs@.len(),
            sum_outputs(outs@) <= u64::MAX,
            total == sum_outputs(outs@.take(i as int)),
        decreases outs@.len() - i,
    {
        proof {
            lemma_sum_outputs_take(outs@, i + 1);
            assert(outs@.take(i + 1).drop_last() =~= outs@.take(i as int));
            assert(outs@.take(i + 1).last() == outs@[i as int]);
        }
        total = total + outs[i].1;
        i = i + 1;
    }
    assert(outs@.take(outs@.len() as int) =~= outs@);
    total
}

/// What `script_position` finds: the first output paying the script, with
/// no earlier one, or nothing.
proof fn lemma_script_position_props(s: Seq<(Seq<u8>, int)>, spk: Seq<u8>)
    ensures
        script_position(s, spk) >= 0 ==> 0 <= script_position(s, spk) < s.len() && s[script_position(
            s,
            spk,
        )].0 == spk && forall|j: int| 0 <= j < script_position(s, spk) ==> (#[trigger] s[j]).0 != spk,
        script_position(s, spk) < 0 ==> forall|j: int|
            0 <= j < s.len() ==> (#[trigger] s[j]).0 != spk,
    decreases s.len(),
{
    if s.len() > 0 && s[0].0 != spk {
        lemma_script_position_props(s.drop_first(), spk);
        let r = script_position(s.drop_first(), spk);
        if r >= 0 {
            assert(s.drop_first()[r] == s[r + 1]);
            assert forall|j: int| 0 <= j < r + 1 implies (#[trigger] s[j]).0 != spk by {
                if j > 0 {
                    assert(s.drop_first()[j - 1] == s[j]);
                }
            }
        } else {
            assert forall|j: int| 0 <= j < s.len() implies (#[trigger] s[j]).0 != spk by {
                if j > 0 {
                    assert(s.drop_first()[j - 1] == s[j]);
                }
            }
        }
    }
}

/// The first output paying to the given script.
fn position_of_script(outs: &Vec<(Address, u64)>, a: &Address) -> (r: Option<usize>)
    ensures
        match r {
            Some(i) => i == script_position(out_model(outs@), a.spk()) && i < outs@.len()
                && outs@[i as int].0.spk() == a.spk(),
            None => script_position(out_model(outs@), a.spk()) < 0,
        },
{
    let ghost model = out_model(outs@);
    proof {
        lemma_script_position_props(model, a.spk());
    }
    let mut i: usize = 0;
    while i < outs.len()
        invariant
            i <= outs@.len(),
            model == out_model(outs@),
            forall|j: int| 0 <= j < i ==> (#[trigger] outs@[j]).0.spk() != a.spk(),
        decreases outs@.len() - i,
    {
        if outs[i].0.same_script(a) {
            proof {
                lemma_script_position_props(model, a.spk());
                let sp = script_position(model, a.spk());
                assert(model[i as int].0 == outs@[i as int].0.spk());
                if sp < 0 {
                    assert(model[i as int].0 != a.spk());
                }
                if 0 <= sp < i {
                    assert(outs@[sp].0.spk() == model[sp].0);
                }
                if sp > i {
                    assert(model[i as int].0 != a.spk());
                }
            }
            return Some(i);
        }
        i = i + 1;
    }
    proof {
        lemma_script_position_props(model, a.spk());
        let sp = script_position(model, a.spk());
        if sp >= 0 {
            assert(outs@[sp].0.spk() == model[sp].0);
        }
    }
    None
}

/// Value of the first `k` outputs.
fn partial_output_sum(outs: &Vec<(Address, u64)>, k: usize) -> (t: u64)
    requires
        k <= outs@.len(),
        sum_outputs(outs@) <= u64::MAX,
    ensures
        t == sum_outputs(outs@.take(k as int)),
{
    let mut total: u64 = 0;
    let mut i: usize = 0;
    while i < k
        invariant
            i <= k <= outs@.len(),
            sum_outputs(outs@) <= u64::MAX,
            total == sum_outputs(outs@.take(i as int)),
        decreases k - i,
    {
        proof {
            lemma_sum_outputs_take(outs@, i + 1);
            assert(outs@.take(i + 1).drop_last() =~= outs@.take(i as int));
            assert(outs@.take(i + 1).last() == outs@[i as int]);
        }
        total = total + outs[i].1;
        i = i + 1;
    }
    total
}

impl TransactionBuilder {
    /// Virtual size of the transaction being built, assuming worst-case
    /// P2PKH spends: every input carries a placeholder signature script of
    /// a 71-byte push and a 65-byte push.  Overestimating the signatures
    /// can only overpay the fee, never fall under the relay minimum.
    pub fn estimate_vsize(&self) -> (r: usize)
        requires
            builder_wf(self),
            1 <= self.inputs@.len() <= 100_000,
            1 <= self.outputs@.len() <= 100_000,
        ensures
            r == legacy_tx_vsize(self.inputs@.len(), 138, output_spk_lens(self.outputs@)),
    {
        let mut script_sig: Vec<u8> = Vec::new();
        script_sig.push(71);
        let mut i: usize = 0;
        while i < 71
            invariant
                i <= 71,
                script_sig@.len() == 1 + i,
            decreases 71 - i,
        {
            script_sig.push(0);
            i = i + 1;
        }
        script_sig.push(65);
        let mut j: usize = 0;
        while j < 65
            invariant
                j <= 65,
                script_sig@.len() == 73 + j,
            decreases 65 - j,
        {
            script_sig.push(0);
            j = j + 1;
        }
        let mut outs: Vec<(u64, Vec<u8>)> = Vec::new();
        let mut k: usize = 0;
        while k < self.outputs.len()
            invariant
                k <= self.outputs@.len(),
                builder_wf(self),
                outs@.len() == k,
                forall|t: int|
                    0 <= t < k ==> (#[trigger] outs@[t]).1@ == self.outputs@[t].0.spk()
                        && outs@[t].0 == self.outputs@[t].1,
            decreases self.outputs@.len() - k,
        {
            let script = clone_bytes(&self.outputs[k].0.script_pubkey);
            outs.push((self.outputs[k].1, script));
            k = k + 1;
        }
        proof {
            assert(outs@.map_values(|o: (u64, Vec<u8>)| o.1@.len()) =~= output_spk_lens(
                self.outputs@,
            ));
            assert forall|t: int| 0 <= t < outs@.len() implies (#[trigger] outs@[t]).1@.len()
                <= 10_000 by {
                assert(self.outputs@[t].0.spk().len() <= 10_000);
            }
        }
        transaction_vsize(self.inputs.len(), &script_sig, &outs)
    }

    /// The fee owed at the target rate for the transaction being built.
    pub fn estimate_fee(&self) -> (r: u64)
        requires
            builder_wf(self),
            1 <= self.inputs@.len() <= 100_000,
            1 <= self.outputs@.len() <= 100_000,
        ensures
            r == estimated_fee(self),
            r <= 1_020_000_000,
    {
        let vsize = self.estimate_vsize();
        proof {
            assert forall|t: int| 0 <= t < output_spk_lens(self.outputs@).len() implies (
            #[trigger] output_spk_lens(self.outputs@)[t]) <= 10_000 by {
                assert(self.outputs@[t].0.spk().len() <= 10_000);
            }
            lemma_vsize_bound(self.inputs@.len(), output_spk_lens(self.outputs@));
        }
        Self::TARGET_FEE_RATE * (vsize as u64)
    }

    /// Stage four: if the recipient output would fall below its dust limit
    /// plus the estimated fee, spend a cardinal output as a further input
    /// and credit the recipient output with its whole value.
    pub fn add_postage(self) -> (r: Result<TransactionBuilder, Error>)
        requires
            builder_wf(&self),
            1 <= self.inputs@.len() <= 99_999,
            1 <= self.outputs@.len() <= 100_000,
            self.outputs@.last().1 <= Ordinal::SUPPLY + 1_020_000_000,
        ensures
            ({
                let last = self.outputs@.len() - 1;
                let dust = dust_of(self.outputs@[last].0.spk());
                let fee = estimated_fee(&self);
                let needs = self.outputs@[last].1 < dust + fee;
                let idx = find_cardinal(
                    self.ranges@,
                    self.utxos@,
                    dust + fee - self.outputs@[last].1,
                );
                match r {
                    Ok(b) => {
                        &&& builder_wf(&b)
                        &&& b.ranges@ == self.ranges@
                        &&& b.ordinal == self.ordinal
                        &&& b.recipient == self.recipient
                        &&& b.change_addresses@ == self.change_addresses@
                        &&& b.unused_change_addresses@ == self.unused_change_addresses@
                        &&& if !needs {
                            b.inputs@ == self.inputs@ && b.outputs@ == self.outputs@ && b.utxos@
                                == self.utxos@
                        } else {
                            let op = self.utxos@[idx];
                            let amt = range_sum(lookup_ranges(self.ranges@, op));
                            &&& idx >= 0
                            &&& b.inputs@ == self.inputs@.push(op)
                            &&& b.utxos@ == self.utxos@.remove(idx)
                            &&& utxo_cardinal(lookup_ranges(self.ranges@, op))
                            &&& amt >= dust + fee - self.outputs@[last].1
                            &&& b.outputs@.len() == self.outputs@.len()
                            &&& b.outputs@[last].0 == self.outputs@[last].0
                            &&& b.outputs@[last].1 == self.outputs@[last].1 + amt
                            &&& forall|i: int|
                                0 <= i < last ==> #[trigger] b.outputs@[i] == self.outputs@[i]
                        }
                    },
                    Err(e) => e == Error::NotEnoughCardinalUtxos && needs && idx < 0,
                }
            }),
    {
        let mut b = self;
        let estimated_fee = b.estimate_fee();
        let last = b.outputs.len() - 1;
        proof {
            crate::dust::lemma_dust_of_bound(b.outputs@.last().0.spk());
        }
        let dust = dust_limit(&b.outputs[last].0.script_pubkey);
        if b.outputs[last].1 < dust + estimated_fee {
            let (utxo, amount) = match b.select_cardinal_utxo(
                dust + estimated_fee - b.outputs[last].1,
            ) {
                Ok(p) => p,
                Err(e) => {
                    return Err(e);
                },
            };
            b.inputs.push(utxo);
            let (addr, value) = match b.outputs.pop() {
                Some(p) => p,
                None => {
                    proof {
                        assert(false);
                    }
                    (Address { script_pubkey: Vec::new() }, 0)
                },
            };
            b.outputs.push((addr, value + amount));
            proof {
                assert(b.outputs@ =~= self.outputs@.update(
                    self.outputs@.len() - 1,
                    (self.outputs@.last().0, (value + amount) as u64),
                ));
                assert forall|i: int| 0 <= i < b.outputs@.len() implies (
                #[trigger] b.outputs@[i]).0.spk().len() <= 10_000 by {
                    assert(b.outputs@[i].0 == self.outputs@[i].0);
                }
                assert forall|i: int| 0 <= i < b.inputs@.len() implies has_key(
                    b.ranges@,
                    #[trigger] b.inputs@[i],
                ) by {
                    if i < self.inputs@.len() {
                        assert(b.inputs@[i] == self.inputs@[i]);
                    }
                }
            }
        }
        Ok(b)
    }

    /// Stage five: if the value reaching the recipient exceeds the maximum
    /// postage, trim the last output to the target postage and push the
    /// remainder onto a fresh change output.
    pub fn strip_excess_postage(self) -> (r: TransactionBuilder)
        requires
            builder_wf(&self),
            self.outputs@.len() >= 1,
            ranges_contain(input_ranges(self.ranges@, self.inputs@), self.ordinal.0),
            range_sum(input_ranges(self.ranges@, self.inputs@)) <= u64::MAX,
            sum_outputs(self.outputs@) <= u64::MAX,
            offset_in_ranges(input_ranges(self.ranges@, self.inputs@), self.ordinal.0)
                <= sum_outputs(self.outputs@),
            exists|i: int|
                0 <= i < self.outputs@.len() && (#[trigger] self.outputs@[i]).0.spk()
                    == self.recipient.spk(),
            sum_outputs(self.outputs@) - offset_in_ranges(
                input_ranges(self.ranges@, self.inputs@),
                self.ordinal.0,
            ) > TransactionBuilder::MAX_POSTAGE ==> self.unused_change_addresses@.len() >= 1,
        ensures
            ({
                let off = offset_in_ranges(input_ranges(self.ranges@, self.inputs@), self.ordinal.0);
                let postage = sum_outputs(self.outputs@) - off;
                &&& builder_wf(&r)
                &&& r.ranges@ == self.ranges@
                &&& r.ordinal == self.ordinal
                &&& r.recipient == self.recipient
                &&& r.inputs@ == self.inputs@
                &&& r.utxos@ == self.utxos@
                &&& r.change_addresses@ == self.change_addresses@
                &&& if postage <= TransactionBuilder::MAX_POSTAGE {
                    r.outputs@ == self.outputs@ && r.unused_change_addresses@
                        == self.unused_change_addresses@
                } else {
                    &&& r.unused_change_addresses@ == self.unused_change_addresses@.drop_last()
                    &&& r.outputs@ == self.outputs@.update(
                        self.outputs@.len() - 1,
                        (self.outputs@.last().0, TransactionBuilder::TARGET_POSTAGE),
                    ).push(
                        (
                            self.unused_change_addresses@.last(),
                            (postage - TransactionBuilder::TARGET_POSTAGE) as u64,
                        ),
                    )
                }
            }),
    {
        let ordinal_offset = self.calculate_ordinal_offset();
        let total_output_amount = sum_output_values(&self.outputs);
        match position_of_script(&self.outputs, &self.recipient) {
            Some(_) => {
            },
            None => {
                proof {
                    lemma_script_position_props(out_model(self.outputs@), self.recipient.spk());
                    let i = choose|i: int|
                        0 <= i < self.outputs@.len() && (#[trigger] self.outputs@[i]).0.spk()
                            == self.recipient.spk();
                    assert(out_model(self.outputs@)[i].0 == self.outputs@[i].0.spk());
                    assert(false);
                }
            },
        };
        let mut b = self;
        let postage = total_output_amount - ordinal_offset;
        if postage > Self::MAX_POSTAGE {
            let (addr, _value) = match b.outputs.pop() {
                Some(p) => p,
                None => {
                    proof {
                        assert(false);
                    }
                    (Address { script_pubkey: Vec::new() }, 0)
                },
            };
            b.outputs.push((addr, Self::TARGET_POSTAGE));
            let chg = match b.unused_change_addresses.pop() {
                Some(a) => a,
                None => {
                    proof {
                        assert(false);
                    }
                    Address { script_pubkey: Vec::new() }
                },
            };
            b.outputs.push((chg, postage - Self::TARGET_POSTAGE));
            proof {
                assert(b.outputs@ =~= self.outputs@.update(
                    self.outputs@.len() - 1,
                    (self.outputs@.last().0, TransactionBuilder::TARGET_POSTAGE),
                ).push(
                    (
                        self.unused_change_addresses@.last(),
                        (sum_outputs(self.outputs@) - offset_in_ranges(
                            input_ranges(self.ranges@, self.inputs@),
                            self.ordinal.0,
                        ) - TransactionBuilder::TARGET_POSTAGE) as u64,
                    ),
                ));
                assert forall|i: int| 0 <= i < b.outputs@.len() implies (
                #[trigger] b.outputs@[i]).0.spk().len() <= 10_000 by {
                    if i < b.outputs@.len() - 1 {
                        assert(b.outputs@[i].0 == self.outputs@[i].0);
                    } else {
                        assert(b.outputs@[i].0 == self.unused_change_addresses@.last());
                    }
                }
                assert forall|i: int| 0 <= i < b.unused_change_addresses@.len() implies (
                #[trigger] b.unused_change_addresses@[i]).spk().len() <= 10_000 by {
                    assert(b.unused_change_addresses@[i] == self.unused_change_addresses@[i]);
                }
            }
        }
        b
    }

    /// Stage six: deduct the fee from the last output.  States where the
    /// deduction would eat into the satoshis ahead of the ordinal, or the
    /// last output cannot cover the fee, are excluded here;
    /// `build_transaction` tests for them at run time.
    pub fn deduct_fee(self) -> (r: TransactionBuilder)
        requires
            builder_wf(&self),
            1 <= self.inputs@.len() <= 100_000,
            1 <= self.outputs@.len() <= 100_000,
            ranges_contain(input_ranges(self.ranges@, self.inputs@), self.ordinal.0),
            range_sum(input_ranges(self.ranges@, self.inputs@)) <= u64::MAX,
            sum_outputs(self.outputs@) <= u64::MAX,
            sum_outputs(self.outputs@) - estimated_fee(&self) > offset_in_ranges(
                input_ranges(self.ranges@, self.inputs@),
                self.ordinal.0,
            ),
            self.outputs@.last().1 >= estimated_fee(&self),
        ensures
            builder_wf(&r),
            r.ranges@ == self.ranges@,
            r.ordinal == self.ordinal,
            r.recipient == self.recipient,
            r.inputs@ == self.inputs@,
            r.utxos@ == self.utxos@,
            r.change_addresses@ == self.change_addresses@,
            r.unused_change_addresses@ == self.unused_change_addresses@,
            r.outputs@ == self.outputs@.update(
                self.outputs@.len() - 1,
                (
                    self.outputs@.last().0,
                    (self.outputs@.last().1 - estimated_fee(&self)) as u64,
                ),
            ),
    {
        let ordinal_offset = self.calculate_ordinal_offset();
        let fee = self.estimate_fee();
        let total_output_amount = sum_output_values(&self.outputs);
        assert(total_output_amount - fee > ordinal_offset);
        let mut b = self;
        let (addr, value) = match b.outputs.pop() {
            Some(p) => p,
            None => {
                proof {
                    assert(false);
                }
                (Address { script_pubkey: Vec::new() }, 0)
            },
        };
        b.outputs.push((addr, value - fee));
        proof {
            assert(b.outputs@ =~= self.outputs@.update(
                self.outputs@.len() - 1,
                (
                    self.outputs@.last().0,
                    (self.outputs@.last().1 - estimated_fee(&self)) as u64,
                ),
            ));
            assert forall|i: int| 0 <= i < b.outputs@.len() implies (
            #[trigger] b.outputs@[i]).0.spk().len() <= 10_000 by {
                assert(b.outputs@[i].0 == self.outputs@[i].0);
            }
        }
        b
    }
}

/// An output reduced to what the invariants speak of: its script and its
/// value.
pub open spec fn out_model(outs: Seq<(Address, u64)>) -> Seq<(Seq<u8>, int)> {
    outs.map_values(|o: (Address, u64)| (o.0.spk(), o.1 as int))
}

/// The same reduction for the outputs of an emitted transaction.
pub open spec fn txout_model(outs: Seq<TxOut>) -> Seq<(Seq<u8>, int)> {
    outs.map_values(|o: TxOut| (o.script_pubkey@, o.value as int))
}

/// Total value of modeled outputs.
pub open spec fn outs_total(s: Seq<(Seq<u8>, int)>) -> int
    decreases s.len(),
{
    if s.len() == 0 {
        0
    } else {
        outs_total(s.drop_last()) + s.last().1
    }
}

/// How many modeled outputs pay to `spk`.
pub open spec fn count_script(s: Seq<(Seq<u8>, int)>, spk: Seq<u8>) -> int
    decreases s.len(),
{
    if s.len() == 0 {
        0
    } else {
        count_script(s.drop_last(), spk) + if s.last().0 == spk {
            1int
        } else {
            0
        }
    }
}

/// The first modeled output paying to `spk`, or `-1`.
pub open spec fn script_position(s: Seq<(Seq<u8>, int)>, spk: Seq<u8>) -> int
    decreases s.len(),
{
    if s.len() == 0 {
        -1
    } else if s[0].0 == spk {
        0
    } else {
        let r = script_position(s.drop_first(), spk);
        if r < 0 {
            -1
        } else {
            r + 1
        }
    }
}

/// How many of the listed outpoints equal `op`.
pub open spec fn count_eq(s: Seq<OutPoint>, op: OutPoint) -> int
    decreases s.len(),
{
    if s.len() == 0 {
        0
    } else {
        count_eq(s.drop_last(), op) + if s.last() == op {
            1int
        } else {
            0
        }
    }
}

/// Scan the spent ranges for a rare identifier, other than the target,
/// that the transaction mishandles: the first one whose position falls
/// within the recipient's value span, or at or past the fee cutoff, ends
/// the scan.  Ranges split only at transaction boundaries, so rare
/// identifiers sit at range starts.
pub open spec fn rare_violation(
    rs: Seq<(u64, u64)>,
    off: int,
    target: u64,
    rec_lo: int,
    rec_hi: int,
    cutoff: int,
) -> Option<(u64, bool)>
    decreases rs.len(),
{
    if rs.len() == 0 {
        None
    } else {
        let start = rs[0].0;
        let rare = ordinal_third(start as nat) == 0 && start != target;
        if rare && rec_lo <= off < rec_hi {
            Some((start, true))
        } else if rare && off >= cutoff {
            Some((start, false))
        } else {
            rare_violation(
                rs.drop_first(),
                off + (rs[0].1 - rs[0].0),
                target,
                rec_lo,
                rec_hi,
                cutoff,
            )
        }
    }
}

/// The modeled outputs of a builder state and of the transaction built
/// from it coincide.
pub proof fn lemma_out_model_total(outs: Seq<(Address, u64)>)
    ensures
        outs_total(out_model(outs)) == sum_outputs(outs),
    decreases outs.len(),
{
    if outs.len() > 0 {
        assert(out_model(outs).drop_last() =~= out_model(outs.drop_last()));
        assert(out_model(outs).last() == (outs.last().0.spk(), outs.last().1 as int));
        lemma_out_model_total(outs.drop_last());
    }
}

/// The ten invariants of a built transaction, §4.9-style, stated over the
/// wallet manifest, the requested ordinal, the recipient script, and the
/// offered change scripts:
/// every input spends a wallet output, and exactly one of them spends the
/// output hosting the ordinal; the ordinal
/// lies in the spent ranges; the recipient output exists exactly once and
/// begins exactly at the ordinal's position; each change script appears at
/// most once; every output is the recipient's or a change script; every
/// output clears its dust limit; the recipient output stays below the
/// postage cap; the fee equals the target rate times the virtual size of
/// the worst-case-signed transaction, exactly; and no rare identifier
/// other than the ordinal reaches the recipient or the fee.
pub open spec fn built_tx_ok(
    m: Seq<(OutPoint, Vec<(u64, u64)>)>,
    ordinal: Ordinal,
    rspk: Seq<u8>,
    chg: Seq<Seq<u8>>,
    tx: &Transaction,
) -> bool {
    let prevs = tx.input@.map_values(|i: TxIn| i.previous_output);
    let outs = txout_model(tx.output@);
    let flat = input_ranges(m, prevs);
    let off = offset_in_ranges(flat, ordinal.0);
    let k = script_position(outs, rspk);
    &&& tx.version == 1
    &&& tx.lock_time == 0
    &&& forall|i: int| 0 <= i < prevs.len() ==> has_key(m, #[trigger] prevs[i])
    &&& find_host(m, ordinal.0) >= 0
    &&& count_eq(prevs, m[find_host(m, ordinal.0)].0) == 1
    &&& ranges_contain(flat, ordinal.0)
    &&& 0 <= k < outs.len()
    &&& outs_total(outs.take(k)) == off
    &&& outs[k].1 > 0
    &&& count_script(outs, rspk) == 1
    &&& forall|c: int| 0 <= c < chg.len() ==> count_script(outs, #[trigger] chg[c]) <= 1
    &&& forall|i: int|
        0 <= i < outs.len() ==> (#[trigger] outs[i]).0 == rspk || chg.contains(outs[i].0)
    &&& forall|i: int| 0 <= i < outs.len() ==> (#[trigger] outs[i]).1 >= dust_of(outs[i].0)
    &&& outs[k].1 < TransactionBuilder::MAX_POSTAGE
    &&& range_sum(flat) - outs_total(outs) == (TransactionBuilder::TARGET_FEE_RATE as int)
        * legacy_tx_vsize(
        prevs.len(),
        138,
        outs.map_values(|o: (Seq<u8>, int)| o.0.len()),
    )
    &&& rare_violation(
        flat,
        0,
        ordinal.0,
        outs_total(outs.take(k)),
        outs_total(outs.take(k)) + outs[k].1,
        outs_total(outs),
    ) is None
}

impl TransactionBuilder {
    /// Stage seven: emit the transaction — the chosen inputs and outputs,
    /// in their order, under version 1 and lock time 0 — then scan the
    /// spent ranges for a rare identifier, other than the requested one,
    /// that would reach the recipient or the fee; such a find is a user
    /// error.  States that fail the post-build assertion battery are
    /// excluded by precondition; `build_transaction` tests for them at
    /// run time.
    pub fn build(self) -> (r: Result<Transaction, Error>)
        requires
            builder_wf(&self),
            1 <= self.inputs@.len() <= 100_000,
            1 <= self.outputs@.len() <= 100_000,
            find_host(self.ranges@, self.ordinal.0) >= 0,
            count_eq(self.inputs@, self.ranges@[find_host(self.ranges@, self.ordinal.0)].0) == 1,
            ranges_contain(input_ranges(self.ranges@, self.inputs@), self.ordinal.0),
            range_sum(input_ranges(self.ranges@, self.inputs@)) <= u64::MAX,
            sum_outputs(self.outputs@) <= u64::MAX,
            ({
                let outs = out_model(self.outputs@);
                let off = offset_in_ranges(input_ranges(self.ranges@, self.inputs@), self.ordinal.0);
                let k = script_position(outs, self.recipient.spk());
                &&& 0 <= k < outs.len()
                &&& outs_total(outs.take(k)) == off
                &&& outs[k].1 > 0
                &&& count_script(outs, self.recipient.spk()) == 1
                &&& forall|c: int|
                    0 <= c < self.change_addresses@.len() ==> count_script(
                        outs,
                        (#[trigger] self.change_addresses@[c]).spk(),
                    ) <= 1
                &&& forall|i: int|
                    0 <= i < outs.len() ==> (#[trigger] outs[i]).0 == self.recipient.spk() || spks(
                        self.change_addresses@,
                    ).contains(outs[i].0)
                &&& forall|i: int| 0 <= i < outs.len() ==> (#[trigger] outs[i]).1 >= dust_of(outs[i].0)
                &&& outs[k].1 < TransactionBuilder::MAX_POSTAGE
                &&& range_sum(input_ranges(self.ranges@, self.inputs@)) - sum_outputs(self.outputs@)
                    == estimated_fee(&self)
            }),
        ensures
            ({
                let outs = out_model(self.outputs@);
                let flat = input_ranges(self.ranges@, self.inputs@);
                let k = script_position(outs, self.recipient.spk());
                let rec_lo = outs_total(outs.take(k));
                let rec_hi = rec_lo + outs[k].1;
                let cutoff = sum_outputs(self.outputs@);
                let scan = rare_violation(flat, 0, self.ordinal.0, rec_lo, rec_hi, cutoff);
                match r {
                    Ok(tx) => scan is None && tx.version == 1 && tx.lock_time == 0 && tx.input@
                        .map_values(|i: TxIn| i.previous_output) == self.inputs@ && txout_model(
                        tx.output@,
                    ) == out_model(self.outputs@) && built_tx_ok(
                        self.ranges@,
                        self.ordinal,
                        self.recipient.spk(),
                        spks(self.change_addresses@),
                        &tx,
                    ),
                    Err(e) => match e {
                        Error::RareOrdinalLostToRecipient(o) => scan == Some((o.0, true)),
                        Error::RareOrdinalLostToFee(o) => scan == Some((o.0, false)),
                        _ => false,
                    },
                }
            }),
    {
        let ghost m = self.ranges@;
        let ghost flat = input_ranges(m, self.inputs@);
        let ghost model = out_model(self.outputs@);
        let mut input: Vec<TxIn> = Vec::new();
        let mut i: usize = 0;
        while i < self.inputs.len()
            invariant
                i <= self.inputs@.len(),
                input@.len() == i,
                forall|t: int|
                    0 <= t < i ==> (#[trigger] input@[t]).previous_output == self.inputs@[t],
            decreases self.inputs@.len() - i,
        {
            input.push(TxIn { previous_output: self.inputs[i] });
            i = i + 1;
        }
        let mut output: Vec<TxOut> = Vec::new();
        let mut j: usize = 0;
        while j < self.outputs.len()
            invariant
                j <= self.outputs@.len(),
                output@.len() == j,
                forall|t: int|
                    0 <= t < j ==> (#[trigger] output@[t]).value == self.outputs@[t].1 && output@[
                        t
                    ].script_pubkey@ == self.outputs@[t].0.spk(),
            decreases self.outputs@.len() - j,
        {
            let script = clone_bytes(&self.outputs[j].0.script_pubkey);
            output.push(TxOut { value: self.outputs[j].1, script_pubkey: script });
            j = j + 1;
        }
        let transaction = Transaction { version: 1, lock_time: 0, input, output };
        proof {
            assert(transaction.input@.map_values(|i: TxIn| i.previous_output) =~= self.inputs@);
            assert(txout_model(transaction.output@) =~= model);
            assert(txout_model(transaction.output@).map_values(|o: (Seq<u8>, int)| o.0.len())
                =~= output_spk_lens(self.outputs@));
            lemma_out_model_total(self.outputs@);
            lemma_input_ranges_valid(m, self.inputs@);
        }
        let k = match position_of_script(&self.outputs, &self.recipient) {
            Some(k) => k,
            None => {
                proof {
                    assert(false);
                }
                0
            },
        };
        let rec_lo = partial_output_sum(&self.outputs, k);
        proof {
            lemma_sum_outputs_take(self.outputs@, k + 1);
            assert(self.outputs@.take(k + 1).drop_last() =~= self.outputs@.take(k as int));
            assert(self.outputs@.take(k + 1).last() == self.outputs@[k as int]);
            assert(out_model(self.outputs@.take(k as int)) =~= model.take(k as int));
            lemma_out_model_total(self.outputs@.take(k as int));
        }
        let rec_hi = rec_lo + self.outputs[k].1;
        let cutoff = sum_output_values(&self.outputs);
        let ghost spos = script_position(model, self.recipient.spk());
        let ghost lo = outs_total(model.take(k as int));
        let ghost hi = lo + model[k as int].1;
        let ghost cut = sum_outputs(self.outputs@);
        let target = self.ordinal.0;
        let mut offset: u64 = 0;
        let mut a: usize = 0;
        proof {
            assert(self.inputs@.skip(0) =~= self.inputs@);
            assert(self.inputs@.take(0) =~= Seq::<OutPoint>::empty());
            assert(input_ranges(m, Seq::<OutPoint>::empty()) == Seq::<(u64, u64)>::empty());
            assert(range_sum(Seq::<(u64, u64)>::empty()) == 0);
        }
        while a < self.inputs.len()
            invariant
                a <= self.inputs@.len(),
                builder_wf(&self),
                m == self.ranges@,
                flat == input_ranges(m, self.inputs@),
                target == self.ordinal.0,
                valid_ranges(flat),
                range_sum(flat) <= u64::MAX,
                model == out_model(self.outputs@),
                spos == script_position(model, self.recipient.spk()),
                spos == k as int,
                lo == outs_total(model.take(spos)),
                0 <= spos < model.len(),
                hi == lo + model[spos].1,
                cut == sum_outputs(self.outputs@),
                offset == range_sum(input_ranges(m, self.inputs@.take(a as int))),
                rare_violation(flat, 0, target, lo, hi, cut) == rare_violation(
                    input_ranges(m, self.inputs@.skip(a as int)),
                    offset as int,
                    target,
                    lo,
                    hi,
                    cut,
                ),
                rec_lo == lo,
                rec_hi == hi,
                cutoff == cut,
            decreases self.inputs@.len() - a,
        {
            let ghost prefix = input_ranges(m, self.inputs@.take(a as int));
            let rs = ranges_of(&self.ranges, &self.inputs[a]);
            let ghost rest = input_ranges(m, self.inputs@.skip(a + 1));
            proof {
                lemma_input_ranges_split(m, self.inputs@, a as int);
                assert(self.inputs@.skip(a as int)[0] == self.inputs@[a as int]);
                assert(self.inputs@.skip(a as int).drop_first() =~= self.inputs@.skip(a + 1));
                assert(input_ranges(m, self.inputs@.skip(a as int)) == rs@ + rest);
                assert(flat == prefix + (rs@ + rest));
                lemma_input_ranges_valid(m, self.inputs@.take(a as int));
                lemma_lookup_le_total(m, self.inputs@[a as int]);
                lemma_input_ranges_valid(m, self.inputs@.skip(a + 1));
                lemma_range_sum_nonneg(prefix);
                lemma_range_sum_nonneg(rest);
                lemma_range_sum_append(prefix, rs@ + rest);
                lemma_range_sum_append(rs@, rest);
            }
            let mut b: usize = 0;
            proof {
                assert(rs@.skip(0) =~= rs@);
                assert(rs@.take(0) =~= Seq::<(u64, u64)>::empty());
                assert(range_sum(Seq::<(u64, u64)>::empty()) == 0);
            }
            while b < rs.len()
                invariant
                    b <= rs@.len(),
                    builder_wf(&self),
                    m == self.ranges@,
                    a < self.inputs@.len(),
                    flat == input_ranges(m, self.inputs@),
                    target == self.ordinal.0,
                    model == out_model(self.outputs@),
                    spos == script_position(model, self.recipient.spk()),
                    lo == outs_total(model.take(spos)),
                    0 <= spos < model.len(),
                    hi == lo + model[spos].1,
                    cut == sum_outputs(self.outputs@),
                    rec_lo == lo,
                    rec_hi == hi,
                    cutoff == cut,
                    rs@ == lookup_ranges(m, self.inputs@[a as int]),
                    prefix == input_ranges(m, self.inputs@.take(a as int)),
                    rest == input_ranges(m, self.inputs@.skip(a + 1)),
                    flat == prefix + (rs@ + rest),
                    valid_ranges(flat),
                    valid_ranges(rs@),
                    range_sum(flat) <= u64::MAX,
                    range_sum(flat) == range_sum(prefix) + range_sum(rs@) + range_sum(rest),
                    0 <= range_sum(prefix),
                    0 <= range_sum(rest),
                    offset == range_sum(prefix) + range_sum(rs@.take(b as int)),
                    rare_violation(flat, 0, target, lo, hi, cut) == rare_violation(
                        rs@.skip(b as int) + rest,
                        offset as int,
                        target,
                        lo,
                        hi,
                        cut,
                    ),
                decreases rs@.len() - b,
            {
                proof {
                    lemma_range_sum_take(rs@, b + 1);
                    assert(rs@.take(b + 1).drop_last() =~= rs@.take(b as int));
                    assert(rs@.take(b + 1).last() == rs@[b as int]);
                    assert(rs@.skip(b as int)[0] == rs@[b as int]);
                    assert((rs@.skip(b as int) + rest)[0] == rs@[b as int]);
                    assert((rs@.skip(b as int) + rest).drop_first() =~= rs@.skip(b + 1) + rest);
                }
                let start = rs[b].0;
                proof {
                    assert(rs@[b as int].0 < rs@[b as int].1 <= Ordinal::SUPPLY);
                    crate::ordinal::lemma_is_common_agrees_with_rarity(start as nat);
                }
                let rarity = Ordinal(start).rarity();
                if rarity != Rarity::Common && start != target {
                    if rec_lo <= offset && offset < rec_hi {
                        return Err(Error::RareOrdinalLostToRecipient(Ordinal(start)));
                    }
                    if offset >= cutoff {
                        return Err(Error::RareOrdinalLostToFee(Ordinal(start)));
                    }
                }
                offset = offset + (rs[b].1 - rs[b].0);
                b = b + 1;
            }
            proof {
                assert(rs@.take(rs@.len() as int) =~= rs@);
                assert(rs@.skip(rs@.len() as int) =~= Seq::<(u64, u64)>::empty());
                assert(rs@.skip(rs@.len() as int) + rest =~= rest);
                lemma_input_ranges_push(m, self.inputs@.take(a as int), self.inputs@[a as int]);
                assert(self.inputs@.take(a as int).push(self.inputs@[a as int]) =~= self.inputs@
                    .take(a + 1));
                lemma_range_sum_append(prefix, rs@);
            }
            a = a + 1;
        }
        proof {
            assert(self.inputs@.take(self.inputs@.len() as int) =~= self.inputs@);
            assert(self.inputs@.skip(self.inputs@.len() as int) =~= Seq::<OutPoint>::empty());
            assert(input_ranges(m, Seq::<OutPoint>::empty()) == Seq::<(u64, u64)>::empty());
            assert(rare_violation(flat, 0, target, lo, hi, cut) is None);
        }
        Ok(transaction)
    }
}

/// The tail of the pipeline: run the assertion battery on the finished
/// state and, when it passes, emit the transaction and its rare-identifier
/// scan.  `None` reports a battery failure.
#[verifier::rlimit(100)]
#[verifier::spinoff_prover]
fn finish_build(b: TransactionBuilder) -> (r: Option<Result<Transaction, Error>>)
    requires
        builder_wf(&b),
        1 <= b.inputs@.len() <= 100_000,
        1 <= b.outputs@.len() <= 100_000,
        ranges_contain(input_ranges(b.ranges@, b.inputs@), b.ordinal.0),
        range_sum(input_ranges(b.ranges@, b.inputs@)) <= u64::MAX,
        sum_outputs(b.outputs@) <= u64::MAX,
        reaches_battery(b.ranges@, b.ordinal.0, b.recipient.spk(), spks(b.change_addresses@)),
        b.inputs@ == pipeline_inputs(
            b.ranges@,
            b.ordinal.0,
            b.recipient.spk(),
            spks(b.change_addresses@),
        ),
        out_model(b.outputs@) == pipeline_outputs(
            b.ranges@,
            b.ordinal.0,
            b.recipient.spk(),
            spks(b.change_addresses@),
        ),
    ensures
        ({
            let m = b.ranges@;
            let n = b.ordinal.0;
            let rspk = b.recipient.spk();
            let chg = spks(b.change_addresses@);
            &&& (battery_fault(m, n, rspk, chg) ==> r is None)
            &&& (!battery_fault(m, n, rspk, chg) ==> match pipeline_scan(m, n, rspk, chg) {
                Some(v) => r == Some(
                    Result::<Transaction, Error>::Err(
                        if v.1 {
                            Error::RareOrdinalLostToRecipient(Ordinal(v.0))
                        } else {
                            Error::RareOrdinalLostToFee(Ordinal(v.0))
                        },
                    ),
                ),
                None => match r {
                    Some(result) => match result {
                        Ok(tx) => tx.version == 1 && tx.lock_time == 0 && tx.input@.map_values(
                            |i: TxIn| i.previous_output,
                        ) == pipeline_inputs(m, n, rspk, chg) && txout_model(tx.output@)
                            == pipeline_outputs(m, n, rspk, chg) && built_tx_ok(
                            m,
                            b.ordinal,
                            rspk,
                            chg,
                            &tx,
                        ),
                        Err(_) => false,
                    },
                    None => false,
                },
            })
        }),
{
    let ghost m = b.ranges@;
    let ghost n = b.ordinal.0;
    let ghost rspk = b.recipient.spk();
    let ghost chg = spks(b.change_addresses@);
    let ghost fins = pipeline_inputs(m, n, rspk, chg);
    let ghost fouts = pipeline_outputs(m, n, rspk, chg);
    proof {
        assert(spks(b.change_addresses@) == chg);
        assert(b.recipient.spk() == rspk);
        assert(chg.len() == b.change_addresses@.len());
        assert forall|c: int| 0 <= c < chg.len() implies #[trigger] chg[c]
            == b.change_addresses@[c].spk() by {
            assert(spks(b.change_addresses@)[c] == b.change_addresses@[c].spk());
        }
    }
    let host_index = match find_ordinal_index(&b.ranges, b.ordinal.0) {
        Some(i) => i,
        None => {
            proof {
                assert(false);
            }
            return None;
        },
    };
    proof {
        lemma_find_host_props(b.ranges@, b.ordinal.0);
    }
    let host_outpoint = b.ranges[host_index].0;
    if count_prevouts(&b.inputs, &host_outpoint) != 1 {
        proof {
            assert(count_eq(fins, m[find_host(m, n)].0) != 1);
            assert(battery_fault(m, n, rspk, chg));
        }
        return None;
    }
    let k = match position_of_script(&b.outputs, &b.recipient) {
        Some(k) => k,
        None => {
            proof {
                assert(script_position(fouts, rspk) < 0);
                assert(battery_fault(m, n, rspk, chg));
            }
            return None;
        },
    };
    if count_outputs_with_script(&b.outputs, &b.recipient) != 1 {
        proof {
            assert(count_script(fouts, rspk) != 1);
            assert(battery_fault(m, n, rspk, chg));
        }
        return None;
    }
    let off6 = b.calculate_ordinal_offset();
    let prefix_k = partial_output_sum(&b.outputs, k);
    proof {
        assert(out_model(b.outputs@.take(k as int)) =~= out_model(b.outputs@).take(k as int));
        lemma_out_model_total(b.outputs@.take(k as int));
        assert(prefix_k == outs_total(fouts.take(k as int)));
        assert(off6 == state_offset(m, fins, n));
    }
    if prefix_k != off6 {
        proof {
            assert(battery_fault(m, n, rspk, chg));
        }
        return None;
    }
    let recipient_value = b.outputs[k].1;
    assert(recipient_value == fouts[k as int].1);
    if recipient_value == 0 {
        proof {
            assert(battery_fault(m, n, rspk, chg));
        }
        return None;
    }
    if recipient_value >= TransactionBuilder::MAX_POSTAGE {
        proof {
            assert(battery_fault(m, n, rspk, chg));
        }
        return None;
    }
    let mut ci: usize = 0;
    while ci < b.change_addresses.len()
        invariant
            ci <= b.change_addresses@.len(),
            reaches_battery(m, n, rspk, chg),
            m == b.ranges@,
            n == b.ordinal.0,
            rspk == b.recipient.spk(),
            chg == spks(b.change_addresses@),
            out_model(b.outputs@) == pipeline_outputs(m, n, rspk, chg),
            chg.len() == b.change_addresses@.len(),
            forall|c: int| 0 <= c < chg.len() ==> #[trigger] chg[c]
                == b.change_addresses@[c].spk(),
            forall|c: int|
                0 <= c < ci ==> count_script(
                    out_model(b.outputs@),
                    (#[trigger] b.change_addresses@[c]).spk(),
                ) <= 1,
        decreases b.change_addresses@.len() - ci,
    {
        if count_outputs_with_script(&b.outputs, &b.change_addresses[ci]) > 1 {
            proof {
                assert(count_script(pipeline_outputs(m, n, rspk, chg), chg[ci as int]) > 1);
                assert(battery_fault(m, n, rspk, chg));
            }
            return None;
        }
        ci = ci + 1;
    }
    let mut oi: usize = 0;
    while oi < b.outputs.len()
        invariant
            oi <= b.outputs@.len(),
            builder_wf(&b),
            reaches_battery(m, n, rspk, chg),
            m == b.ranges@,
            n == b.ordinal.0,
            rspk == b.recipient.spk(),
            chg == spks(b.change_addresses@),
            out_model(b.outputs@) == pipeline_outputs(m, n, rspk, chg),
            b.recipient.spk() == rspk,
            spks(b.change_addresses@) == chg,
            forall|i: int|
                0 <= i < oi ==> (#[trigger] out_model(b.outputs@)[i]).0
                    == b.recipient.spk() || spks(b.change_addresses@).contains(
                    out_model(b.outputs@)[i].0,
                ),
            forall|i: int|
                0 <= i < oi ==> (#[trigger] out_model(b.outputs@)[i]).1 >= dust_of(
                    out_model(b.outputs@)[i].0,
                ),
        decreases b.outputs@.len() - oi,
    {
        let is_recipient = b.outputs[oi].0.same_script(&b.recipient);
        if !is_recipient && !script_in_changes(&b.change_addresses, &b.outputs[oi].0) {
            proof {
                let outs = pipeline_outputs(m, n, rspk, chg);
                assert(outs[oi as int].0 != rspk && !chg.contains(outs[oi as int].0));
                assert(battery_fault(m, n, rspk, chg));
            }
            return None;
        }
        let dust = dust_limit(&b.outputs[oi].0.script_pubkey);
        if b.outputs[oi].1 < dust {
            proof {
                let outs = pipeline_outputs(m, n, rspk, chg);
                assert(outs[oi as int].1 < dust_of(outs[oi as int].0));
                assert(battery_fault(m, n, rspk, chg));
            }
            return None;
        }
        oi = oi + 1;
    }
    let total_in = input_total(&b);
    let total_out = sum_output_values(&b.outputs);
    let fee6 = b.estimate_fee();
    proof {
        assert(total_in == range_sum(input_ranges(m, fins)));
        lemma_out_model_total(b.outputs@);
        assert(total_out == outs_total(fouts));
        assert(fee6 == state_fee(fins, fouts)) by {
            assert(output_spk_lens(b.outputs@) =~= fouts.map_values(
                |o: (Seq<u8>, int)| o.0.len(),
            ));
        }
    }
    if total_in < total_out {
        proof {
            assert(battery_fault(m, n, rspk, chg));
        }
        return None;
    }
    if total_in - total_out != fee6 {
        proof {
            assert(battery_fault(m, n, rspk, chg));
        }
        return None;
    }
    proof {
        assert forall|c: int| 0 <= c < chg.len() implies count_script(
            fouts,
            #[trigger] chg[c],
        ) <= 1 by {
            assert(count_script(out_model(b.outputs@), b.change_addresses@[c].spk()) <= 1);
        }
        assert(!battery_fault(m, n, rspk, chg));
        assert(spks(b.change_addresses@) == chg);
        assert(b.recipient.spk() == rspk);
    }
    let result = b.build();
    proof {
        let outs = out_model(b.outputs@);
        let kk = script_position(outs, rspk);
        assert(rare_violation(
            input_ranges(b.ranges@, b.inputs@),
            0,
            b.ordinal.0,
            outs_total(outs.take(kk)),
            outs_total(outs.take(kk)) + outs[kk].1,
            sum_outputs(b.outputs@),
        ) == pipeline_scan(m, n, rspk, chg)) by {
            assert(sum_outputs(b.outputs@) == outs_total(fouts));
        }
    }
    Some(result)
}

// The pipeline, restated as functions of its arguments.  Every stage has an
// exact contract, so the state between stages is a function of the wallet
// manifest `m`, the ordinal `n`, the recipient script `rspk` and the change
// scripts `chg`.  These functions spell those states out; the contract of
// `build_transaction` uses them to say which outcome every input earns.  A
// state is `(inputs, outputs, candidates, unused change scripts)`, outputs
// reduced to script and value.

/// The state after selecting the wallet output that holds the ordinal.
/// Meaningful when some output does, that is when `find_host` succeeds.
pub open spec fn state_after_select(
    m: Seq<(OutPoint, Vec<(u64, u64)>)>,
    n: u64,
    rspk: Seq<u8>,
    chg: Seq<Seq<u8>>,
) -> (Seq<OutPoint>, Seq<(Seq<u8>, int)>, Seq<OutPoint>, Seq<Seq<u8>>) {
    let host = find_host(m, n);
    (
        seq![m[host].0],
        seq![(rspk, range_sum(m[host].1@))],
        manifest_keys(m).remove(host),
        chg,
    )
}

/// The ordinal's position within the satoshis a state's inputs spend.
pub open spec fn state_offset(m: Seq<(OutPoint, Vec<(u64, u64)>)>, ins: Seq<OutPoint>, n: u64) -> int {
    offset_in_ranges(input_ranges(m, ins), n)
}

/// Alignment needs a change address but none is left: the pipeline stops
/// with an internal error.
pub open spec fn align_exhausted(
    m: Seq<(OutPoint, Vec<(u64, u64)>)>,
    n: u64,
    rspk: Seq<u8>,
    chg: Seq<Seq<u8>>,
) -> bool {
    state_offset(m, state_after_select(m, n, rspk, chg).0, n) != 0 && chg.len() == 0
}

/// The state after aligning the ordinal to the front of the recipient
/// output.
pub open spec fn state_after_align(
    m: Seq<(OutPoint, Vec<(u64, u64)>)>,
    n: u64,
    rspk: Seq<u8>,
    chg: Seq<Seq<u8>>,
) -> (Seq<OutPoint>, Seq<(Seq<u8>, int)>, Seq<OutPoint>, Seq<Seq<u8>>) {
    let st = state_after_select(m, n, rspk, chg);
    let off = state_offset(m, st.0, n);
    if off == 0 {
        st
    } else {
        (st.0, seq![(st.3.last(), off), (st.1[0].0, st.1[0].1 - off)], st.2, st.3.drop_last())
    }
}

/// Whether the alignment output exists and sits below the recipient
/// script's dust limit.
pub open spec fn pad_needed(
    m: Seq<(OutPoint, Vec<(u64, u64)>)>,
    n: u64,
    rspk: Seq<u8>,
    chg: Seq<Seq<u8>>,
) -> bool {
    let st = state_after_align(m, n, rspk, chg);
    st.1[0].0 != rspk && st.1[0].1 < dust_of(rspk)
}

/// The candidate the padding stage takes, or `-1`.
pub open spec fn pad_choice(
    m: Seq<(OutPoint, Vec<(u64, u64)>)>,
    n: u64,
    rspk: Seq<u8>,
    chg: Seq<Seq<u8>>,
) -> int {
    let st = state_after_align(m, n, rspk, chg);
    find_cardinal(m, st.2, dust_of(rspk) - st.1[0].1)
}

/// Padding is needed and no candidate qualifies.
pub open spec fn pad_shortfall(
    m: Seq<(OutPoint, Vec<(u64, u64)>)>,
    n: u64,
    rspk: Seq<u8>,
    chg: Seq<Seq<u8>>,
) -> bool {
    pad_needed(m, n, rspk, chg) && pad_choice(m, n, rspk, chg) < 0
}

/// The state after padding the alignment output.
pub open spec fn state_after_pad(
    m: Seq<(OutPoint, Vec<(u64, u64)>)>,
    n: u64,
    rspk: Seq<u8>,
    chg: Seq<Seq<u8>>,
) -> (Seq<OutPoint>, Seq<(Seq<u8>, int)>, Seq<OutPoint>, Seq<Seq<u8>>) {
    let st = state_after_align(m, n, rspk, chg);
    if !pad_needed(m, n, rspk, chg) {
        st
    } else {
        let idx = pad_choice(m, n, rspk, chg);
        let op = st.2[idx];
        let amt = range_sum(lookup_ranges(m, op));
        (st.0.insert(0, op), st.1.update(0, (st.1[0].0, st.1[0].1 + amt)), st.2.remove(idx), st.3)
    }
}

/// The fee of a state: the target rate times the virtual size of its
/// placeholder transaction.
pub open spec fn state_fee(ins: Seq<OutPoint>, outs: Seq<(Seq<u8>, int)>) -> int {
    (TransactionBuilder::TARGET_FEE_RATE as int) * legacy_tx_vsize(
        ins.len(),
        138,
        outs.map_values(|o: (Seq<u8>, int)| o.0.len()),
    )
}

/// Whether the recipient output falls below its dust limit plus the fee.
pub open spec fn postage_needed(
    m: Seq<(OutPoint, Vec<(u64, u64)>)>,
    n: u64,
    rspk: Seq<u8>,
    chg: Seq<Seq<u8>>,
) -> bool {
    let st = state_after_pad(m, n, rspk, chg);
    st.1.last().1 < dust_of(st.1.last().0) + state_fee(st.0, st.1)
}

/// The candidate the postage stage takes, or `-1`.
pub open spec fn postage_choice(
    m: Seq<(OutPoint, Vec<(u64, u64)>)>,
    n: u64,
    rspk: Seq<u8>,
    chg: Seq<Seq<u8>>,
) -> int {
    let st = state_after_pad(m, n, rspk, chg);
    find_cardinal(m, st.2, dust_of(st.1.last().0) + state_fee(st.0, st.1) - st.1.last().1)
}

/// Postage is needed and no candidate qualifies.
pub open spec fn postage_shortfall(
    m: Seq<(OutPoint, Vec<(u64, u64)>)>,
    n: u64,
    rspk: Seq<u8>,
    chg: Seq<Seq<u8>>,
) -> bool {
    postage_needed(m, n, rspk, chg) && postage_choice(m, n, rspk, chg) < 0
}

/// The state after adding postage.
pub open spec fn state_after_postage(
    m: Seq<(OutPoint, Vec<(u64, u64)>)>,
    n: u64,
    rspk: Seq<u8>,
    chg: Seq<Seq<u8>>,
) -> (Seq<OutPoint>, Seq<(Seq<u8>, int)>, Seq<OutPoint>, Seq<Seq<u8>>) {
    let st = state_after_pad(m, n, rspk, chg);
    if !postage_needed(m, n, rspk, chg) {
        st
    } else {
        let idx = postage_choice(m, n, rspk, chg);
        let op = st.2[idx];
        let amt = range_sum(lookup_ranges(m, op));
        let last = st.1.len() - 1;
        (st.0.push(op), st.1.update(last, (st.1[last].0, st.1[last].1 + amt)), st.2.remove(idx), st.3)
    }
}

/// The postage the recipient would carry before stripping.
pub open spec fn state_postage(
    m: Seq<(OutPoint, Vec<(u64, u64)>)>,
    n: u64,
    rspk: Seq<u8>,
    chg: Seq<Seq<u8>>,
) -> int {
    let st = state_after_postage(m, n, rspk, chg);
    outs_total(st.1) - state_offset(m, st.0, n)
}

/// The stripping stage stops with an internal error: the outputs cannot
/// cover the satoshis ahead of the ordinal, or the excess needs a change
/// address and none is left.
pub open spec fn strip_fault(
    m: Seq<(OutPoint, Vec<(u64, u64)>)>,
    n: u64,
    rspk: Seq<u8>,
    chg: Seq<Seq<u8>>,
) -> bool {
    let st = state_after_postage(m, n, rspk, chg);
    ||| outs_total(st.1) < state_offset(m, st.0, n)
    ||| (state_postage(m, n, rspk, chg) > TransactionBuilder::MAX_POSTAGE && st.3.len() == 0)
}

/// The state after stripping excess postage.
pub open spec fn state_after_strip(
    m: Seq<(OutPoint, Vec<(u64, u64)>)>,
    n: u64,
    rspk: Seq<u8>,
    chg: Seq<Seq<u8>>,
) -> (Seq<OutPoint>, Seq<(Seq<u8>, int)>, Seq<OutPoint>, Seq<Seq<u8>>) {
    let st = state_after_postage(m, n, rspk, chg);
    let postage = state_postage(m, n, rspk, chg);
    if postage <= TransactionBuilder::MAX_POSTAGE {
        st
    } else {
        let last = st.1.len() - 1;
        (
            st.0,
            st.1.update(last, (st.1[last].0, TransactionBuilder::TARGET_POSTAGE as int)).push(
                (st.3.last(), postage - TransactionBuilder::TARGET_POSTAGE),
            ),
            st.2,
            st.3.drop_last(),
        )
    }
}

/// The fee deduction stops with an internal error: the chosen funds cannot
/// cover the fee without eating into the satoshis ahead of the ordinal, or
/// the last output cannot pay it.
pub open spec fn deduct_fault(
    m: Seq<(OutPoint, Vec<(u64, u64)>)>,
    n: u64,
    rspk: Seq<u8>,
    chg: Seq<Seq<u8>>,
) -> bool {
    let st = state_after_strip(m, n, rspk, chg);
    let fee = state_fee(st.0, st.1);
    ||| outs_total(st.1) <= fee
    ||| outs_total(st.1) - fee <= state_offset(m, st.0, n)
    ||| st.1.last().1 < fee
}

/// The inputs of the finished transaction, in order.
pub open spec fn pipeline_inputs(
    m: Seq<(OutPoint, Vec<(u64, u64)>)>,
    n: u64,
    rspk: Seq<u8>,
    chg: Seq<Seq<u8>>,
) -> Seq<OutPoint> {
    state_after_strip(m, n, rspk, chg).0
}

/// The outputs of the finished transaction, in order, after the fee came
/// off the last one.
pub open spec fn pipeline_outputs(
    m: Seq<(OutPoint, Vec<(u64, u64)>)>,
    n: u64,
    rspk: Seq<u8>,
    chg: Seq<Seq<u8>>,
) -> Seq<(Seq<u8>, int)> {
    let st = state_after_strip(m, n, rspk, chg);
    let fee = state_fee(st.0, st.1);
    let last = st.1.len() - 1;
    st.1.update(last, (st.1[last].0, st.1[last].1 - fee))
}

/// The finished transaction fails the assertion battery: an internal
/// error.  Each disjunct is one of the §4.9-style checks on the final
/// inputs and outputs.
pub open spec fn battery_fault(
    m: Seq<(OutPoint, Vec<(u64, u64)>)>,
    n: u64,
    rspk: Seq<u8>,
    chg: Seq<Seq<u8>>,
) -> bool {
    let ins = pipeline_inputs(m, n, rspk, chg);
    let outs = pipeline_outputs(m, n, rspk, chg);
    let k = script_position(outs, rspk);
    let off = state_offset(m, ins, n);
    ||| count_eq(ins, m[find_host(m, n)].0) != 1
    ||| k < 0
    ||| count_script(outs, rspk) != 1
    ||| outs_total(outs.take(k)) != off
    ||| outs[k].1 == 0
    ||| outs[k].1 >= TransactionBuilder::MAX_POSTAGE
    ||| exists|c: int| 0 <= c < chg.len() && count_script(outs, #[trigger] chg[c]) > 1
    ||| exists|i: int|
        0 <= i < outs.len() && (#[trigger] outs[i]).0 != rspk && !chg.contains(outs[i].0)
    ||| exists|i: int| 0 <= i < outs.len() && (#[trigger] outs[i]).1 < dust_of(outs[i].0)
    ||| range_sum(input_ranges(m, ins)) - outs_total(outs) != state_fee(ins, outs)
}

/// The pipeline runs to the final battery without an error or an internal
/// fault.
pub open spec fn reaches_battery(
    m: Seq<(OutPoint, Vec<(u64, u64)>)>,
    n: u64,
    rspk: Seq<u8>,
    chg: Seq<Seq<u8>>,
) -> bool {
    &&& find_host(m, n) >= 0
    &&& !align_exhausted(m, n, rspk, chg)
    &&& !pad_shortfall(m, n, rspk, chg)
    &&& !postage_shortfall(m, n, rspk, chg)
    &&& !strip_fault(m, n, rspk, chg)
    &&& !deduct_fault(m, n, rspk, chg)
}

/// The rare-identifier scan of the finished transaction.
pub open spec fn pipeline_scan(
    m: Seq<(OutPoint, Vec<(u64, u64)>)>,
    n: u64,
    rspk: Seq<u8>,
    chg: Seq<Seq<u8>>,
) -> Option<(u64, bool)> {
    let ins = pipeline_inputs(m, n, rspk, chg);
    let outs = pipeline_outputs(m, n, rspk, chg);
    let k = script_position(outs, rspk);
    rare_violation(
        input_ranges(m, ins),
        0,
        n,
        outs_total(outs.take(k)),
        outs_total(outs.take(k)) + outs[k].1,
        outs_total(outs),
    )
}

/// What `build_transaction` may return for the given arguments: each branch
/// of the pipeline pins its outcome.  `None` reports an internal error;
/// every other branch names its error or, on success, the emitted
/// transaction's exact inputs and outputs.
pub open spec fn pipeline_result(
    m: Seq<(OutPoint, Vec<(u64, u64)>)>,
    ordinal: Ordinal,
    rspk: Seq<u8>,
    chg: Seq<Seq<u8>>,
    r: Option<Result<Transaction, Error>>,
) -> bool {
    let n = ordinal.0;
    &&& (find_host(m, n) < 0 ==> r == Some(
        Result::<Transaction, Error>::Err(Error::NotInWallet(ordinal)),
    ))
    &&& (find_host(m, n) >= 0 && align_exhausted(m, n, rspk, chg) ==> r is None)
    &&& (find_host(m, n) >= 0 && !align_exhausted(m, n, rspk, chg) && (pad_shortfall(
        m,
        n,
        rspk,
        chg,
    ) || postage_shortfall(m, n, rspk, chg)) ==> r == Some(
        Result::<Transaction, Error>::Err(Error::NotEnoughCardinalUtxos),
    ))
    &&& (find_host(m, n) >= 0 && !align_exhausted(m, n, rspk, chg) && !pad_shortfall(
        m,
        n,
        rspk,
        chg,
    ) && !postage_shortfall(m, n, rspk, chg) && (strip_fault(m, n, rspk, chg) || deduct_fault(
        m,
        n,
        rspk,
        chg,
    )) ==> r is None)
    &&& (reaches_battery(m, n, rspk, chg) && battery_fault(m, n, rspk, chg) ==> r is None)
    &&& (reaches_battery(m, n, rspk, chg) && !battery_fault(m, n, rspk, chg)
        ==> match pipeline_scan(m, n, rspk, chg) {
        Some(v) => r == Some(
            Result::<Transaction, Error>::Err(
                if v.1 {
                    Error::RareOrdinalLostToRecipient(Ordinal(v.0))
                } else {
                    Error::RareOrdinalLostToFee(Ordinal(v.0))
                },
            ),
        ),
        None => match r {
            Some(result) => match result {
                Ok(tx) => tx.version == 1 && tx.lock_time == 0 && tx.input@.map_values(
                    |i: TxIn| i.previous_output,
                ) == pipeline_inputs(m, n, rspk, chg) && txout_model(tx.output@)
                    == pipeline_outputs(m, n, rspk, chg),
                Err(_) => false,
            },
            None => false,
        },
    })
}

/// Builder determinism: the pipeline is a pure function of its arguments.
/// Any two results its contract admits for the same manifest, ordinal,
/// recipient script and change scripts agree: the same internal-error
/// report, the same error, or transactions equal input for input and, by
/// script and value, output for output.
pub proof fn lemma_builder_determinism(
    m: Seq<(OutPoint, Vec<(u64, u64)>)>,
    ordinal: Ordinal,
    rspk: Seq<u8>,
    chg: Seq<Seq<u8>>,
    r1: Option<Result<Transaction, Error>>,
    r2: Option<Result<Transaction, Error>>,
)
    requires
        pipeline_result(m, ordinal, rspk, chg, r1),
        pipeline_result(m, ordinal, rspk, chg, r2),
    ensures
        r1 is None <==> r2 is None,
        match (r1, r2) {
            (Some(result1), Some(result2)) => match (result1, result2) {
                (Ok(tx1), Ok(tx2)) => tx1.version == tx2.version && tx1.lock_time
                    == tx2.lock_time && tx1.input@.map_values(|i: TxIn| i.previous_output)
                    == tx2.input@.map_values(|i: TxIn| i.previous_output) && txout_model(
                    tx1.output@,
                ) == txout_model(tx2.output@),
                (Err(e1), Err(e2)) => e1 == e2,
                _ => false,
            },
            _ => true,
        },
{
}

impl TransactionBuilder {
    /// Build the transaction that delivers `ordinal` to `recipient`,
    /// drawing on the wallet's `ranges` and consuming `change` addresses
    /// from the end as needed.
    ///
    /// Runs the seven-stage pipeline.  The contract pins every outcome,
    /// through the pipeline's spec-level restatement above: when no wallet
    /// output holds the ordinal, `NotInWallet`; when stage three or four
    /// needs a cardinal output and none qualifies,
    /// `NotEnoughCardinalUtxos`; when the scan of the finished state finds
    /// a stray rare identifier, the matching `RareOrdinalLost` error; and
    /// otherwise `Some(Ok(tx))`, whose inputs and outputs are exactly
    /// `pipeline_inputs` and `pipeline_outputs`, in order, satisfying
    /// every invariant of `built_tx_ok`.  `None` reports an internal
    /// error — a missing change address, a fee the chosen funds cannot
    /// cover, or a finished state failing the assertion battery: states a
    /// wallet-shaped manifest never produces, on which the embedding
    /// application halts as on a failed assertion.
    #[verifier::rlimit(100)]
    #[verifier::spinoff_prover]
    pub fn build_transaction(
        ranges: Vec<(OutPoint, Vec<(u64, u64)>)>,
        ordinal: Ordinal,
        recipient: Address,
        change: Vec<Address>,
    ) -> (r: Option<Result<Transaction, Error>>)
        requires
            manifest_wf(ranges@),
            recipient.spk().len() <= 10_000,
            forall|i: int| 0 <= i < change@.len() ==> (#[trigger] change@[i]).spk().len() <= 10_000,
        ensures
            pipeline_result(ranges@, ordinal, recipient.spk(), spks(change@), r),
            match r {
                Some(result) => match result {
                    Ok(tx) => built_tx_ok(ranges@, ordinal, recipient.spk(), spks(change@), &tx),
                    Err(e) => match e {
                        Error::NotInWallet(o) => o == ordinal && find_host(ranges@, ordinal.0) < 0,
                        _ => true,
                    },
                },
                None => true,
            },
    {
        let ghost m = ranges@;
        let ghost rspk = recipient.spk();
        let ghost chg = spks(change@);
        let b0 = TransactionBuilder::new(ranges, ordinal, recipient, change);
        proof {
            assert forall|i: int| 0 <= i < b0.utxos@.len() implies has_key(
                m,
                #[trigger] b0.utxos@[i],
            ) by {
                assert(b0.utxos@[i] == m[i].0);
            }
            assert forall|i: int| 0 <= i < b0.change_addresses@.len() implies (
            #[trigger] b0.change_addresses@[i]).spk().len() <= 10_000 by {
                assert(b0.change_addresses@[i].spk() == spks(b0.change_addresses@)[i]);
                assert(spks(b0.change_addresses@)[i] == chg[i]);
            }
            assert(builder_wf(&b0));
        }
        let b1 = match b0.select_ordinal() {
            Ok(b) => b,
            Err(e) => {
                proof {
                    lemma_find_host_props(m, ordinal.0);
                }
                return Some(Err(e));
            },
        };
        let ghost host = find_host(m, ordinal.0);
        let ghost n = ordinal.0;
        let ghost st1 = state_after_select(m, n, rspk, chg);
        let ghost flat1 = input_ranges(m, b1.inputs@);
        proof {
            lemma_find_host_props(m, ordinal.0);
            lemma_input_ranges_valid(m, b1.inputs@);
            lemma_lookup_at_index(m, host);
            lemma_lookup_le_total(m, m[host].0);
            assert(range_sum(flat1) <= Ordinal::SUPPLY);
            lemma_offset_in_ranges_bounds(flat1, ordinal.0);
            assert(b1.inputs@ == st1.0);
            assert(out_model(b1.outputs@) =~= st1.1);
            assert(b1.utxos@ == st1.2);
            assert(spks(b1.unused_change_addresses@) == chg);
            assert(spks(b1.change_addresses@) == chg);
        }
        let off0 = b1.calculate_ordinal_offset();
        proof {
            assert(off0 == state_offset(m, st1.0, n));
            assert(b1.unused_change_addresses@.len() == chg.len());
        }
        if off0 != 0 && b1.unused_change_addresses.len() == 0 {
            proof {
                assert(align_exhausted(m, n, rspk, chg));
            }
            return None;
        }
        assert(!align_exhausted(m, n, rspk, chg));
        let b2 = b1.align_ordinal();
        let ghost st2 = state_after_align(m, n, rspk, chg);
        let ghost flat2 = input_ranges(m, b2.inputs@);
        proof {
            assert(flat2 == flat1);
            assert(b2.outputs@.len() == 1 || b2.outputs@.len() == 2);
            assert(b2.outputs@.last().0.spk() == rspk);
            assert(b2.outputs@[0].1 <= Ordinal::SUPPLY);
            assert(sum_outputs(b2.outputs@) == range_sum(flat1));
            let off = state_offset(m, st1.0, n);
            if off != 0 {
                assert(b2.outputs@[0].0.spk() == spks(b1.unused_change_addresses@).last());
                assert(spks(b2.unused_change_addresses@) =~= spks(
                    b1.unused_change_addresses@,
                ).drop_last());
            }
            assert(b2.inputs@ == st2.0);
            assert(out_model(b2.outputs@) =~= st2.1);
            assert(b2.utxos@ == st2.2);
            assert(spks(b2.unused_change_addresses@) == st2.3);
        }
        let b3 = match b2.pad_alignment_output() {
            Ok(b) => b,
            Err(e) => {
                proof {
                    assert(pad_needed(m, n, rspk, chg));
                    assert(pad_choice(m, n, rspk, chg) < 0);
                    assert(pad_shortfall(m, n, rspk, chg));
                }
                return Some(Err(e));
            },
        };
        let ghost st3 = state_after_pad(m, n, rspk, chg);
        let ghost flat3 = input_ranges(m, b3.inputs@);
        proof {
            let needs_pad = b2.outputs@[0].0.spk() != rspk && b2.outputs@[0].1 < dust_of(rspk);
            assert(needs_pad == pad_needed(m, n, rspk, chg));
            assert(!pad_shortfall(m, n, rspk, chg));
            if needs_pad {
                let op = b2.utxos@[find_cardinal(
                    m,
                    b2.utxos@,
                    dust_of(rspk) - b2.outputs@[0].1,
                )];
                assert(b3.inputs@[0] == op);
                assert(b3.inputs@.drop_first() =~= b2.inputs@);
                assert(flat3 == lookup_ranges(m, op) + flat2);
                lemma_range_sum_append(lookup_ranges(m, op), flat2);
                lemma_offset_in_ranges_append(lookup_ranges(m, op), flat2, ordinal.0);
                lemma_lookup_le_total(m, op);
                assert(b3.outputs@ =~= b2.outputs@.update(
                    0,
                    (b2.outputs@[0].0, b3.outputs@[0].1),
                ));
                lemma_sum_outputs_update(b2.outputs@, 0, (b2.outputs@[0].0, b3.outputs@[0].1));
            } else {
                assert(flat3 == flat2);
            }
            assert(ranges_contain(flat3, ordinal.0));
            assert(range_sum(flat3) <= 2 * (Ordinal::SUPPLY as int));
            assert(sum_outputs(b3.outputs@) == range_sum(flat3));
            assert(b3.outputs@.last().0.spk() == rspk);
            assert(b3.outputs@.last().1 <= Ordinal::SUPPLY);
            assert(1 <= b3.inputs@.len() <= 2);
            lemma_input_ranges_valid(m, b3.inputs@);
            assert(b3.inputs@ == st3.0);
            assert(out_model(b3.outputs@) =~= st3.1);
            assert(b3.utxos@ == st3.2);
            assert(spks(b3.unused_change_addresses@) == st3.3);
        }
        let b4 = match b3.add_postage() {
            Ok(b) => b,
            Err(e) => {
                proof {
                    assert(estimated_fee(&b3) == state_fee(st3.0, st3.1)) by {
                        assert(output_spk_lens(b3.outputs@) =~= st3.1.map_values(
                            |o: (Seq<u8>, int)| o.0.len(),
                        ));
                    }
                    assert(postage_needed(m, n, rspk, chg));
                    assert(postage_choice(m, n, rspk, chg) < 0);
                    assert(postage_shortfall(m, n, rspk, chg));
                }
                return Some(Err(e));
            },
        };
        let ghost st4 = state_after_postage(m, n, rspk, chg);
        let ghost flat4 = input_ranges(m, b4.inputs@);
        proof {
            assert(estimated_fee(&b3) == state_fee(st3.0, st3.1)) by {
                assert(output_spk_lens(b3.outputs@) =~= st3.1.map_values(
                    |o: (Seq<u8>, int)| o.0.len(),
                ));
            }
            assert(!postage_shortfall(m, n, rspk, chg));
            let last3 = b3.outputs@.len() - 1;
            let needs = b3.outputs@[last3].1 < dust_of(b3.outputs@[last3].0.spk()) + estimated_fee(
                &b3,
            );
            if needs {
                let op = b3.utxos@[find_cardinal(
                    m,
                    b3.utxos@,
                    dust_of(b3.outputs@[last3].0.spk()) + estimated_fee(&b3)
                        - b3.outputs@[last3].1,
                )];
                lemma_input_ranges_push(m, b3.inputs@, op);
                assert(flat4 == flat3 + lookup_ranges(m, op));
                lemma_range_sum_append(flat3, lookup_ranges(m, op));
                lemma_offset_in_ranges_append(flat3, lookup_ranges(m, op), ordinal.0);
                lemma_lookup_le_total(m, op);
                assert(b4.outputs@ =~= b3.outputs@.update(
                    last3,
                    (b3.outputs@[last3].0, b4.outputs@[last3].1),
                ));
                lemma_sum_outputs_update(
                    b3.outputs@,
                    last3,
                    (b3.outputs@[last3].0, b4.outputs@[last3].1),
                );
                assert(offset_in_ranges(flat4, ordinal.0) == offset_in_ranges(flat3, ordinal.0));
            } else {
                assert(flat4 == flat3);
            }
            assert(ranges_contain(flat4, ordinal.0));
            assert(range_sum(flat4) <= 3 * (Ordinal::SUPPLY as int));
            assert(sum_outputs(b4.outputs@) == range_sum(flat4));
            assert(b4.outputs@.last().0.spk() == rspk);
            assert(1 <= b4.inputs@.len() <= 3);
            lemma_input_ranges_valid(m, b4.inputs@);
            lemma_offset_in_ranges_bounds(flat4, ordinal.0);
            assert(b4.inputs@ == st4.0);
            assert(out_model(b4.outputs@) =~= st4.1);
            assert(b4.utxos@ == st4.2);
            assert(spks(b4.unused_change_addresses@) == st4.3);
            lemma_out_model_total(b4.outputs@);
        }
        let off4 = b4.calculate_ordinal_offset();
        let total4 = sum_output_values(&b4.outputs);
        proof {
            assert(off4 == state_offset(m, st4.0, n));
            assert(total4 == outs_total(st4.1));
            assert(b4.unused_change_addresses@.len() == st4.3.len());
        }
        if total4 < off4 {
            proof {
                assert(strip_fault(m, n, rspk, chg));
            }
            return None;
        }
        if total4 - off4 > Self::MAX_POSTAGE && b4.unused_change_addresses.len() == 0 {
            proof {
                assert(state_postage(m, n, rspk, chg) > Self::MAX_POSTAGE);
                assert(strip_fault(m, n, rspk, chg));
            }
            return None;
        }
        assert(!strip_fault(m, n, rspk, chg));
        proof {
            assert(b4.outputs@.last().0.spk() == rspk);
            assert(0 <= b4.outputs@.len() - 1 < b4.outputs@.len());
        }
        let b5 = b4.strip_excess_postage();
        let ghost st5 = state_after_strip(m, n, rspk, chg);
        let ghost flat5 = input_ranges(m, b5.inputs@);
        proof {
            assert(flat5 == flat4);
            let postage = sum_outputs(b4.outputs@) - offset_in_ranges(flat4, ordinal.0);
            if postage > Self::MAX_POSTAGE {
                let last4 = b4.outputs@.len() - 1;
                lemma_sum_outputs_update(
                    b4.outputs@,
                    last4,
                    (b4.outputs@.last().0, Self::TARGET_POSTAGE),
                );
                let updated = b4.outputs@.update(
                    last4,
                    (b4.outputs@.last().0, Self::TARGET_POSTAGE),
                );
                assert(b5.outputs@.drop_last() =~= updated);
                assert(sum_outputs(b5.outputs@) == sum_outputs(updated) + b5.outputs@.last().1);
            }
            lemma_sum_outputs_nonneg(b5.outputs@);
            assert(sum_outputs(b5.outputs@) <= 6 * (Ordinal::SUPPLY as int));
            assert(1 <= b5.outputs@.len() <= b4.outputs@.len() + 1);
            assert(b5.inputs@ == st5.0);
            assert(out_model(b5.outputs@) =~= st5.1);
            assert(spks(b5.unused_change_addresses@) =~= st5.3);
            lemma_out_model_total(b5.outputs@);
        }
        let off5 = b5.calculate_ordinal_offset();
        let fee5 = b5.estimate_fee();
        let total5 = sum_output_values(&b5.outputs);
        let last_index5 = b5.outputs.len() - 1;
        let last_value5 = b5.outputs[last_index5].1;
        proof {
            assert(fee5 == state_fee(st5.0, st5.1)) by {
                assert(output_spk_lens(b5.outputs@) =~= st5.1.map_values(
                    |o: (Seq<u8>, int)| o.0.len(),
                ));
            }
            assert(off5 == state_offset(m, st5.0, n));
            assert(total5 == outs_total(st5.1));
            assert(last_value5 == st5.1.last().1);
        }
        if total5 <= fee5 {
            proof {
                assert(deduct_fault(m, n, rspk, chg));
            }
            return None;
        }
        if total5 - fee5 <= off5 {
            proof {
                assert(deduct_fault(m, n, rspk, chg));
            }
            return None;
        }
        if last_value5 < fee5 {
            proof {
                assert(deduct_fault(m, n, rspk, chg));
            }
            return None;
        }
        assert(!deduct_fault(m, n, rspk, chg));
        assert(reaches_battery(m, n, rspk, chg));
        let b6 = b5.deduct_fee();
        let ghost flat6 = input_ranges(m, b6.inputs@);
        proof {
            assert(flat6 == flat5);
            lemma_sum_outputs_update(
                b5.outputs@,
                b5.outputs@.len() - 1,
                (b5.outputs@.last().0, (b5.outputs@.last().1 - estimated_fee(&b5)) as u64),
            );
            assert(sum_outputs(b6.outputs@) == sum_outputs(b5.outputs@) - estimated_fee(&b5));
            assert(estimated_fee(&b6) == estimated_fee(&b5)) by {
                assert(output_spk_lens(b6.outputs@) =~= output_spk_lens(b5.outputs@));
            }
            lemma_sum_outputs_nonneg(b6.outputs@);
            assert(estimated_fee(&b5) == state_fee(st5.0, st5.1)) by {
                assert(output_spk_lens(b5.outputs@) =~= st5.1.map_values(
                    |o: (Seq<u8>, int)| o.0.len(),
                ));
            }
            assert(b6.inputs@ == pipeline_inputs(m, n, rspk, chg));
            assert(out_model(b6.outputs@) =~= pipeline_outputs(m, n, rspk, chg));
            lemma_out_model_total(b6.outputs@);
        }
        proof {
            assert(spks(b6.change_addresses@) == chg);
            assert(b6.recipient.spk() == rspk);
            assert(b6.ranges@ == m);
            assert(b6.ordinal == ordinal);
        }
        finish_build(b6)
    }
}

/// Updating one output changes the total by the difference.
pub proof fn lemma_sum_outputs_update(s: Seq<(Address, u64)>, i: int, x: (Address, u64))
    requires
        0 <= i < s.len(),
    ensures
        sum_outputs(s.update(i, x)) == sum_outputs(s) - s[i].1 + x.1,
    decreases s.len(),
{
    if i == s.len() - 1 {
        assert(s.update(i, x).drop_last() =~= s.drop_last());
        assert(s.update(i, x).last() == x);
    } else {
        assert(s.update(i, x).drop_last() =~= s.drop_last().update(i, x));
        assert(s.update(i, x).last() == s.last());
        lemma_sum_outputs_update(s.drop_last(), i, x);
    }
}

/// How many of the listed outpoints equal `op`.
fn count_prevouts(inputs: &Vec<OutPoint>, op: &OutPoint) -> (r: usize)
    ensures
        r == count_eq(inputs@, *op),
{
    let mut count: usize = 0;
    let mut i: usize = 0;
    while i < inputs.len()
        invariant
            i <= inputs@.len(),
            count <= i,
            count == count_eq(inputs@.take(i as int), *op),
        decreases inputs@.len() - i,
    {
        proof {
            assert(inputs@.take(i + 1).drop_last() =~= inputs@.take(i as int));
            assert(inputs@.take(i + 1).last() == inputs@[i as int]);
        }
        if inputs[i] == *op {
            count = count + 1;
        }
        i = i + 1;
    }
    assert(inputs@.take(inputs@.len() as int) =~= inputs@);
    count
}

/// How many outputs pay to the given address's script.
fn count_outputs_with_script(outs: &Vec<(Address, u64)>, a: &Address) -> (r: usize)
    ensures
        r == count_script(out_model(outs@), a.spk()),
{
    let ghost model = out_model(outs@);
    let mut count: usize = 0;
    let mut i: usize = 0;
    while i < outs.len()
        invariant
            i <= outs@.len(),
            count <= i,
            model == out_model(outs@),
            count == count_script(model.take(i as int), a.spk()),
        decreases outs@.len() - i,
    {
        proof {
            assert(model.take(i + 1).drop_last() =~= model.take(i as int));
            assert(model.take(i + 1).last() == model[i as int]);
            assert(model[i as int].0 == outs@[i as int].0.spk());
        }
        if outs[i].0.same_script(a) {
            count = count + 1;
        }
        i = i + 1;
    }
    assert(model.take(model.len() as int) =~= model);
    count
}

/// Whether the address's script is among the change scripts.
fn script_in_changes(change: &Vec<Address>, a: &Address) -> (r: bool)
    ensures
        r == spks(change@).contains(a.spk()),
{
    let mut i: usize = 0;
    while i < change.len()
        invariant
            i <= change@.len(),
            forall|j: int| 0 <= j < i ==> (#[trigger] change@[j]).spk() != a.spk(),
        decreases change@.len() - i,
    {
        if change[i].same_script(a) {
            proof {
                assert(spks(change@)[i as int] == a.spk());
            }
            return true;
        }
        i = i + 1;
    }
    proof {
        if spks(change@).contains(a.spk()) {
            let j = choose|j: int| 0 <= j < spks(change@).len() && spks(change@)[j] == a.spk();
            assert(change@[j].spk() == a.spk());
        }
    }
    false
}

/// Total satoshis the chosen inputs spend.
fn input_total(b: &TransactionBuilder) -> (t: u64)
    requires
        builder_wf(b),
        range_sum(input_ranges(b.ranges@, b.inputs@)) <= u64::MAX,
    ensures
        t == range_sum(input_ranges(b.ranges@, b.inputs@)),
{
    let ghost m = b.ranges@;
    let ghost flat = input_ranges(m, b.inputs@);
    proof {
        lemma_input_ranges_valid(m, b.inputs@);
        assert(b.inputs@.take(0) =~= Seq::<OutPoint>::empty());
        assert(input_ranges(m, Seq::<OutPoint>::empty()) == Seq::<(u64, u64)>::empty());
        assert(range_sum(Seq::<(u64, u64)>::empty()) == 0);
    }
    let mut total: u64 = 0;
    let mut i: usize = 0;
    while i < b.inputs.len()
        invariant
            i <= b.inputs@.len(),
            builder_wf(b),
            m == b.ranges@,
            flat == input_ranges(m, b.inputs@),
            range_sum(flat) <= u64::MAX,
            total == range_sum(input_ranges(m, b.inputs@.take(i as int))),
        decreases b.inputs@.len() - i,
    {
        let rs = ranges_of(&b.ranges, &b.inputs[i]);
        proof {
            lemma_lookup_le_total(m, b.inputs@[i as int]);
            lemma_input_ranges_push(m, b.inputs@.take(i as int), b.inputs@[i as int]);
            assert(b.inputs@.take(i as int).push(b.inputs@[i as int]) =~= b.inputs@.take(i + 1));
            lemma_range_sum_append(input_ranges(m, b.inputs@.take(i as int)), rs@);
            lemma_input_ranges_split(m, b.inputs@, i + 1);
            lemma_input_ranges_valid(m, b.inputs@.take(i + 1));
            lemma_input_ranges_valid(m, b.inputs@.skip(i + 1));
            lemma_range_sum_append(
                input_ranges(m, b.inputs@.take(i + 1)),
                input_ranges(m, b.inputs@.skip(i + 1)),
            );
            lemma_range_sum_nonneg(input_ranges(m, b.inputs@.skip(i + 1)));
        }
        total = total + utxo_total(rs);
        i = i + 1;
    }
    assert(b.inputs@.take(b.inputs@.len() as int) =~= b.inputs@);
    total
}

/// When an offset scan has covered a clean prefix and part of the current
/// input, the ordinal's position, if the current range holds it, is the
/// satoshis scanned so far plus the offset in that range.
proof fn lemma_offset_prefix_sum(
    prefix: Seq<(u64, u64)>,
    rs: Seq<(u64, u64)>,
    rest: Seq<(u64, u64)>,
    n: u64,
    k: int,
)
    requires
        0 <= k < rs.len(),
        !ranges_contain(prefix, n),
        forall|j: int| 0 <= j < k ==> !((#[trigger] rs[j]).0 <= n < rs[j].1),
        rs[k].0 <= n < rs[k].1,
    ensures
        offset_in_ranges(prefix + (rs + rest), n) == range_sum(prefix) + range_sum(rs.take(k)) + (n
            - rs[k].0),
{
    lemma_offset_in_ranges_append(prefix, rs + rest, n);
    assert(ranges_contain(rs, n));
    let scanned = rs.take(k);
    let tail = rs.skip(k) + rest;
    assert(rs + rest =~= scanned + tail) by {
        assert(rs =~= rs.take(k) + rs.skip(k));
        assert((rs.take(k) + rs.skip(k)) + rest =~= rs.take(k) + (rs.skip(k) + rest));
    }
    lemma_offset_in_ranges_append(scanned, tail, n);
    assert(!ranges_contain(scanned, n)) by {
        if ranges_contain(scanned, n) {
            let j = choose|j: int|
                0 <= j < scanned.len() && (#[trigger] scanned[j]).0 <= n < scanned[j].1;
            assert(scanned[j] == rs[j]);
        }
    }
    assert(tail[0] == rs[k]);
    assert(offset_in_ranges(tail, n) == n - rs[k].0);
}

/// When no manifest entry holds the ordinal, no candidate's ranges do.
proof fn lemma_no_host_no_contain(
    m: Seq<(OutPoint, Vec<(u64, u64)>)>,
    utxos: Seq<OutPoint>,
    n: u64,
)
    requires
        forall|j: int| 0 <= j < m.len() ==> !ranges_contain((#[trigger] m[j]).1@, n),
    ensures
        !ranges_contain(input_ranges(m, utxos), n),
    decreases utxos.len(),
{
    if utxos.len() > 0 {
        lemma_no_host_no_contain(m, utxos.drop_first(), n);
        assert(!ranges_contain(lookup_ranges(m, utxos[0]), n)) by {
            lemma_lookup_not_contain(m, utxos[0], n);
        }
        lemma_offset_in_ranges_append(
            lookup_ranges(m, utxos[0]),
            input_ranges(m, utxos.drop_first()),
            n,
        );
    }
}

/// A lookup in a manifest none of whose entries hold `n` yields ranges
/// that do not hold `n`.
proof fn lemma_lookup_not_contain(m: Seq<(OutPoint, Vec<(u64, u64)>)>, op: OutPoint, n: u64)
    requires
        forall|j: int| 0 <= j < m.len() ==> !ranges_contain((#[trigger] m[j]).1@, n),
    ensures
        !ranges_contain(lookup_ranges(m, op), n),
    decreases m.len(),
{
    if m.len() > 0 && m[0].0 != op {
        assert forall|j: int| 0 <= j < m.drop_first().len() implies !ranges_contain(
            (#[trigger] m.drop_first()[j]).1@,
            n,
        ) by {
            assert(m.drop_first()[j] == m[j + 1]);
        }
        lemma_lookup_not_contain(m.drop_first(), op, n);
    }
}

} // verus!
