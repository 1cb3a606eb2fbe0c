//! The decimal notation `<height>.<offset>`: the block that minted an
//! identifier and the identifier's position in that block's emission.

use vstd::prelude::*;

use crate::chars::dec_seq;
use crate::chars::first_index_of;
use crate::chars::parses_as_u64;
use crate::chars::push_u64;
use crate::chars::string_of_chars;
use crate::chars::u64_value_of;
use crate::height::height_starting_ordinal;
use crate::height::subsidy_of_height;
use crate::height::Height;

verus! {

/// What a decimal string denotes: the starting identifier of the named
/// block, advanced by the offset, which must lie below the block's subsidy.
pub open spec fn decimal_parse(s: Seq<char>) -> Option<int> {
    let i = first_index_of(s, '.');
    if i < 0 {
        None
    } else {
        let h_str = s.subrange(0, i);
        let o_str = s.subrange(i + 1, s.len() as int);
        if !parses_as_u64(h_str) || !parses_as_u64(o_str) {
            None
        } else {
            let h = u64_value_of(h_str);
            let o = u64_value_of(o_str);
            if o >= subsidy_of_height(h as nat) {
                None
            } else {
                Some(height_starting_ordinal(h as nat) + o)
            }
        }
    }
}

/// The two fields of the decimal notation.
#[derive(Clone, Copy, Debug, PartialEq, Eq, Structural, Hash)]
pub struct Decimal {
    /// The height of the block that minted the identifier.
    pub height: Height,
    /// The identifier's offset within that block's emission.
    pub offset: u64,
}

/// The textual form of a decimal: height and offset separated by a period.
pub open spec fn decimal_seq(height: nat, offset: nat) -> Seq<char> {
    dec_seq(height) + seq!['.'] + dec_seq(offset)
}

impl Decimal {
    /// The decimal written out, as in `6929999.0`.
    pub fn to_string(&self) -> (r: String)
        ensures
            r@ == decimal_seq(self.height.0 as nat, self.offset as nat),
    {
        let mut v: Vec<char> = Vec::new();
        push_u64(&mut v, self.height.0);
        v.push('.');
        push_u64(&mut v, self.offset);
        proof {
            assert(v@ =~= decimal_seq(self.height.0 as nat, self.offset as nat));
        }
        string_of_chars(&v)
    }
}

} // verus!
