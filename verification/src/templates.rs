//! Page fragments over identifier data.

use vstd::prelude::*;

use crate::chars::dec_seq;
use crate::chars::push_u64;
use crate::chars::string_of_chars;
use crate::ordinal::Ordinal;

verus! {

/// A page over a half-open range of identifiers.
#[derive(Clone, Copy, Debug, PartialEq, Eq, Structural, Hash)]
pub struct RangeHtml {
    /// First identifier of the range.
    pub start: Ordinal,
    /// First identifier past the range.
    pub end: Ordinal,
}

/// The title of a range page.
pub open spec fn range_title_seq(start: nat, end: nat) -> Seq<char> {
    "Ordinal range "@ + dec_seq(start) + seq!['\u{2013}'] + dec_seq(end)
}

impl RangeHtml {
    /// The page's title, naming the two bounds.
    pub fn title(&self) -> (r: String)
        ensures
            r@ == range_title_seq(self.start.0 as nat, self.end.0 as nat),
    {
        let mut v: Vec<char> = Vec::new();
        let prefix = crate::chars::chars_of_str("Ordinal range ");
        let mut i: usize = 0;
        while i < prefix.len()
            invariant
                i <= prefix@.len(),
                v@ == prefix@.take(i as int),
            decreases prefix@.len() - i,
        {
            v.push(prefix[i]);
            assert(v@ =~= prefix@.take(i + 1));
            i = i + 1;
        }
        assert(v@ =~= prefix@);
        push_u64(&mut v, self.start.0);
        v.push('\u{2013}');
        push_u64(&mut v, self.end.0);
        proof {
            assert(v@ =~= range_title_seq(self.start.0 as nat, self.end.0 as nat));
        }
        string_of_chars(&v)
    }
}

} // verus!
