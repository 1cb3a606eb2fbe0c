//! The degree notation `C°E′P″B‴`: cycle, offset within the epoch, offset
//! within the difficulty period, and offset within the block.

use vstd::prelude::*;

use crate::chars::dec_seq;
use crate::chars::first_index_of;
use crate::chars::parses_as_u64;
use crate::chars::push_u64;
use crate::chars::string_of_chars;
use crate::chars::u64_value_of;
use crate::height::height_starting_ordinal;
use crate::height::subsidy_of_height;

verus! {

/// What a degree string denotes.  The cycle, epoch-offset and period-offset
/// fields determine the height: offsets shift against each other by 336
/// blocks at each halving, so the two offsets fix the epoch within its
/// cycle, and must agree with that relation to the letter.  The block
/// offset, which may be omitted, then advances within the block's emission.
/// A cycle number past five always fails: every epoch of such a cycle lies
/// beyond the last epoch that mints, so no block offset can satisfy the
/// final bound.
pub open spec fn degree_parse(s: Seq<char>) -> Option<int> {
    let i_deg = first_index_of(s, '\u{00b0}');
    if i_deg < 0 {
        None
    } else {
        let c_str = s.subrange(0, i_deg);
        let rest1 = s.subrange(i_deg + 1, s.len() as int);
        if !parses_as_u64(c_str) {
            None
        } else {
            let cycle = u64_value_of(c_str);
            let i_min = first_index_of(rest1, '\u{2032}');
            if i_min < 0 {
                None
            } else {
                let e_str = rest1.subrange(0, i_min);
                let rest2 = rest1.subrange(i_min + 1, rest1.len() as int);
                if !parses_as_u64(e_str) {
                    None
                } else {
                    let epoch_offset = u64_value_of(e_str);
                    if epoch_offset >= 210_000 {
                        None
                    } else {
                        let i_sec = first_index_of(rest2, '\u{2033}');
                        if i_sec < 0 {
                            None
                        } else {
                            let p_str = rest2.subrange(0, i_sec);
                            let rest3 = rest2.subrange(i_sec + 1, rest2.len() as int);
                            if !parses_as_u64(p_str) {
                                None
                            } else {
                                let period_offset = u64_value_of(p_str);
                                if period_offset >= 2016 {
                                    None
                                } else {
                                    let relationship = period_offset + 1_260_000 - epoch_offset;
                                    if relationship % 336 != 0 || cycle >= 6 {
                                        None
                                    } else {
                                        let epoch = cycle * 6 + (relationship % 2016) / 336;
                                        let height = epoch * 210_000 + epoch_offset;
                                        degree_parse_block(rest3, height as nat)
                                    }
                                }
                            }
                        }
                    }
                }
            }
        }
    }
}

/// The block-offset tail of a degree string: either nothing, or digits
/// closed by the triple prime, with nothing after it, naming an offset
/// below the block's subsidy.
pub open spec fn degree_parse_block(rest: Seq<char>, height: nat) -> Option<int> {
    let i_tri = first_index_of(rest, '\u{2034}');
    let block = if i_tri < 0 {
        if rest.len() == 0 {
            Some(0)
        } else {
            None
        }
    } else {
        let b_str = rest.subrange(0, i_tri);
        let rest2 = rest.subrange(i_tri + 1, rest.len() as int);
        if rest2.len() != 0 || !parses_as_u64(b_str) {
            None
        } else {
            Some(u64_value_of(b_str))
        }
    };
    match block {
        None => None,
        Some(b) => if b >= subsidy_of_height(height) {
            None
        } else {
            Some(height_starting_ordinal(height) + b)
        },
    }
}

/// The arithmetic heart of degree decoding.  For a block at offset `e_off`
/// of epoch `e`, the period offset satisfies the halving-increment relation:
/// `p_off + 1260000 - e_off` is a multiple of 336, and its residue modulo
/// 2016, divided by 336, recovers the epoch's position within its cycle.
pub proof fn lemma_degree_relationship(e: nat, e_off: nat)
    requires
        e_off < 210_000,
    ensures
        ({
            let p_off = (210_000 * e + e_off) % 2016;
            let r = p_off + 1_260_000 - e_off;
            r >= 0 && r % 336 == 0 && r % 2016 == 336 * (e % 6) && (r % 2016) / 336 == e % 6
        }),
{
    let h = 210_000 * e as int + e_off as int;
    let t = 336 * e as int + e_off as int;
    vstd::arithmetic::div_mod::lemma_fundamental_div_mod(t, 2016);
    vstd::arithmetic::div_mod::lemma_mod_bound(t, 2016);
    let k = t / 2016;
    let m = t % 2016;
    assert(h == 2016 * (104 * e as int) + t);
    vstd::arithmetic::div_mod::lemma_mod_multiples_vanish(104 * e as int, t, 2016);
    assert(h % 2016 == m);
    let r = m + 1_260_000 - e_off as int;
    assert(r == 336 * e as int + 2016 * (625 - k));
    assert(r == (e as int + 6 * (625 - k)) * 336);
    vstd::arithmetic::div_mod::lemma_mod_multiples_basic(e as int + 6 * (625 - k), 336);
    assert(r % 336 == 0);
    vstd::arithmetic::div_mod::lemma_mod_multiples_vanish(625 - k, 336 * e as int, 2016);
    assert(r % 2016 == (336 * e as int) % 2016);
    vstd::arithmetic::div_mod::lemma_fundamental_div_mod(e as int, 6);
    vstd::arithmetic::div_mod::lemma_mod_bound(e as int, 6);
    let q = e as int / 6;
    let w = e as int % 6;
    assert(336 * e as int == 2016 * q + 336 * w);
    vstd::arithmetic::div_mod::lemma_mod_multiples_vanish(q, 336 * w, 2016);
    vstd::arithmetic::div_mod::lemma_small_mod((336 * w) as nat, 2016);
    assert((336 * e as int) % 2016 == 336 * w);
    vstd::arithmetic::div_mod::lemma_div_multiples_vanish(w, 336);
    assert((336 * w) / 336 == w);
}

/// Parsing the degree text built from four in-range fields that satisfy
/// the halving-increment relation yields the identifier they stand for.
pub proof fn lemma_degree_parse_of_fields(
    hour: nat,
    minute: nat,
    second: nat,
    third: nat,
    height: nat,
    n: int,
)
    requires
        minute < 210_000,
        second < 2016,
        hour < 6,
        third <= u64::MAX,
        (second + 1_260_000 - minute) % 336 == 0,
        (hour * 6 + ((second + 1_260_000 - minute) % 2016) / 336) * 210_000 + minute == height,
        third < subsidy_of_height(height),
        height_starting_ordinal(height) + third == n,
    ensures
        degree_parse(degree_seq(hour, minute, second, third)) == Some(n),
{
    let a1 = crate::chars::dec_seq(hour);
    let a2 = crate::chars::dec_seq(minute);
    let a3 = crate::chars::dec_seq(second);
    let a4 = crate::chars::dec_seq(third);
    let gs = degree_seq(hour, minute, second, third);
    let rest1 = a2 + seq!['\u{2032}'] + a3 + seq!['\u{2033}'] + a4 + seq!['\u{2034}'];
    let rest2 = a3 + seq!['\u{2033}'] + a4 + seq!['\u{2034}'];
    let rest3 = a4 + seq!['\u{2034}'];
    assert(gs == a1 + seq!['\u{00b0}'] + rest1) by {
        assert(gs =~= a1 + seq!['\u{00b0}'] + rest1);
    }
    crate::chars::lemma_split_numeral_field(gs, hour, '\u{00b0}', rest1);
    assert(rest1 == a2 + seq!['\u{2032}'] + rest2) by {
        assert(rest1 =~= a2 + seq!['\u{2032}'] + rest2);
    }
    crate::chars::lemma_split_numeral_field(rest1, minute, '\u{2032}', rest2);
    assert(rest2 == a3 + seq!['\u{2033}'] + rest3) by {
        assert(rest2 =~= a3 + seq!['\u{2033}'] + rest3);
    }
    crate::chars::lemma_split_numeral_field(rest2, second, '\u{2033}', rest3);
    assert(rest3 == a4 + seq!['\u{2034}'] + Seq::<char>::empty()) by {
        assert(rest3 =~= a4 + seq!['\u{2034}'] + Seq::<char>::empty());
    }
    crate::chars::lemma_split_numeral_field(rest3, third, '\u{2034}', Seq::empty());
    assert(degree_parse_block(rest3, height) == Some(n));
}

/// The four fields of the degree notation.
#[derive(Clone, Copy, Debug, PartialEq, Eq, Structural, Hash)]
pub struct Degree {
    /// Cycle number.
    pub hour: u64,
    /// Offset of the block within its epoch.
    pub minute: u64,
    /// Offset of the block within its difficulty period.
    pub second: u64,
    /// Offset of the identifier within its block's emission.
    pub third: u64,
}

/// The textual form of a degree: the four fields in decimal, separated by
/// the degree, minute, second and triple-prime signs.
pub open spec fn degree_seq(hour: nat, minute: nat, second: nat, third: nat) -> Seq<char> {
    dec_seq(hour) + seq!['\u{00b0}'] + dec_seq(minute) + seq!['\u{2032}'] + dec_seq(second)
        + seq!['\u{2033}'] + dec_seq(third) + seq!['\u{2034}']
}

impl Degree {
    /// The degree written out, as in `1°0′0″0‴`.
    pub fn to_string(&self) -> (r: String)
        ensures
            r@ == degree_seq(self.hour as nat, self.minute as nat, self.second as nat, self.third as nat),
    {
        let mut v: Vec<char> = Vec::new();
        push_u64(&mut v, self.hour);
        v.push('\u{00b0}');
        push_u64(&mut v, self.minute);
        v.push('\u{2032}');
        push_u64(&mut v, self.second);
        v.push('\u{2033}');
        push_u64(&mut v, self.third);
        v.push('\u{2034}');
        proof {
            assert(v@ =~= degree_seq(
                self.hour as nat,
                self.minute as nat,
                self.second as nat,
                self.third as nat,
            ));
        }
        string_of_chars(&v)
    }
}

} // verus!
