//! The identifier value type: an integer in `[0, SUPPLY)` numbering each
//! satoshi by issuance order, with its derived projections.

use vstd::arithmetic::div_mod::lemma_fundamental_div_mod;
use vstd::arithmetic::div_mod::lemma_div_multiples_vanish_fancy;
use vstd::arithmetic::div_mod::lemma_mod_bound;
use vstd::arithmetic::div_mod::lemma_mod_multiples_vanish;
use vstd::arithmetic::div_mod::lemma_multiply_divide_lt;
use vstd::arithmetic::div_mod::lemma_small_mod;
use vstd::prelude::*;

use crate::epoch::epoch_of_ordinal;
use crate::epoch::epoch_scan;
use crate::epoch::epoch_starting_ordinal;
use crate::epoch::lemma_starting_ordinal_le_supply;
use crate::epoch::lemma_subsidy_bounds;
use crate::epoch::lemma_supply_identity;
use crate::epoch::subsidy_of_epoch;
use crate::epoch::Epoch;
use crate::height::height_starting_ordinal;
use crate::height::Height;

verus! {

/// The position of identifier `n` within its epoch.
pub open spec fn ordinal_epoch_position(n: nat) -> int {
    n - epoch_starting_ordinal(epoch_of_ordinal(n))
}

/// The height of the block whose coinbase minted identifier `n`.
pub open spec fn ordinal_height(n: nat) -> int {
    210_000 * epoch_of_ordinal(n) + ordinal_epoch_position(n) / (subsidy_of_epoch(
        epoch_of_ordinal(n),
    ) as int)
}

/// The position of identifier `n` within its block's emission.
pub open spec fn ordinal_third(n: nat) -> int {
    ordinal_epoch_position(n) % (subsidy_of_epoch(epoch_of_ordinal(n)) as int)
}

/// The difficulty period of the block that minted identifier `n`.
pub open spec fn ordinal_period(n: nat) -> int {
    ordinal_height(n) / 2016
}

/// The cycle of identifier `n`: six epochs per cycle.
pub open spec fn ordinal_cycle(n: nat) -> nat {
    epoch_of_ordinal(n) / 6
}

/// The epoch scan, started at a position at or before `n`'s epoch, lands on
/// the epoch whose identifier interval contains `n`.
proof fn lemma_epoch_scan_props(n: nat, e0: nat)
    requires
        e0 <= 33,
        epoch_starting_ordinal(e0) <= n,
    ensures
        e0 <= epoch_scan(n, e0) <= 33,
        epoch_starting_ordinal(epoch_scan(n, e0)) <= n,
        epoch_scan(n, e0) < 33 ==> n < epoch_starting_ordinal((epoch_scan(n, e0) + 1) as nat),
        epoch_scan(n, e0) == 33 ==> n >= epoch_starting_ordinal(33),
    decreases 33 - e0,
{
    if e0 < 33 && n >= epoch_starting_ordinal((e0 + 1) as nat) {
        lemma_epoch_scan_props(n, (e0 + 1) as nat);
    }
}

/// For a valid identifier, its epoch's interval contains it and the epoch
/// still carries subsidy.
pub proof fn lemma_epoch_of_ordinal_props(n: nat)
    requires
        n < Ordinal::SUPPLY,
    ensures
        epoch_of_ordinal(n) < 33,
        epoch_starting_ordinal(epoch_of_ordinal(n)) <= n,
        n < epoch_starting_ordinal((epoch_of_ordinal(n) + 1) as nat),
{
    lemma_epoch_scan_props(n, 0);
    lemma_supply_identity();
}

/// The epoch of an identifier is the unique epoch whose interval holds it.
pub proof fn lemma_epoch_of_ordinal_unique(n: nat, e: nat)
    requires
        n < Ordinal::SUPPLY,
        e <= 33,
        epoch_starting_ordinal(e) <= n,
        n < epoch_starting_ordinal((e + 1) as nat),
    ensures
        epoch_of_ordinal(n) == e,
{
    lemma_epoch_of_ordinal_props(n);
    let f = epoch_of_ordinal(n);
    if f < e {
        crate::epoch::lemma_starting_ordinal_mono((f + 1) as nat, e);
    }
    if e < f {
        crate::epoch::lemma_starting_ordinal_mono((e + 1) as nat, f);
    }
}

/// Decomposing a valid identifier: its height lies in its epoch, the block's
/// starting identifier plus the position in the block gives the identifier
/// back, and that position is below the block's subsidy.
pub proof fn lemma_ordinal_height_decomposition(n: nat)
    requires
        n < Ordinal::SUPPLY,
    ensures
        ordinal_height(n) / 210_000 == epoch_of_ordinal(n),
        ordinal_height(n) % 210_000 == ordinal_epoch_position(n) / (subsidy_of_epoch(
            epoch_of_ordinal(n),
        ) as int),
        0 <= ordinal_third(n) < subsidy_of_epoch(epoch_of_ordinal(n)),
        height_starting_ordinal(ordinal_height(n) as nat) + ordinal_third(n) == n,
        0 <= ordinal_height(n) < 33 * 210_000,
{
    lemma_epoch_of_ordinal_props(n);
    let e = epoch_of_ordinal(n);
    let s = subsidy_of_epoch(e) as int;
    lemma_subsidy_bounds(e);
    let p = ordinal_epoch_position(n);
    assert(epoch_starting_ordinal((e + 1) as nat) == epoch_starting_ordinal(e) + 210_000
        * subsidy_of_epoch(e));
    assert(0 <= p < 210_000 * s);
    let q = p / s;
    let r = p % s;
    lemma_fundamental_div_mod(p, s);
    lemma_mod_bound(p, s);
    lemma_multiply_divide_lt(p, s, 210_000);
    assert(s * 210_000 == 210_000 * s) by (nonlinear_arith);
    assert(0 <= q < 210_000);
    let h = ordinal_height(n);
    assert(h == 210_000 * e + q);
    lemma_div_multiples_vanish_fancy(e as int, q, 210_000);
    assert(h / 210_000 == e);
    lemma_mod_multiples_vanish(e as int, q, 210_000);
    lemma_small_mod(q as nat, 210_000);
    assert(h % 210_000 == q);
    assert(height_starting_ordinal(h as nat) == epoch_starting_ordinal(e) + q * s);
    assert(q * s == s * q) by (nonlinear_arith);
    assert(height_starting_ordinal(h as nat) + r == n);
}

/// True for the lowercase letters the name notation is written in.
pub open spec fn is_name_char(c: char) -> bool {
    'a' <= c && c <= 'z'
}

/// True when every character of `s` is a lowercase letter.
pub open spec fn all_name_chars(s: Seq<char>) -> bool {
    forall|i: int| 0 <= i < s.len() ==> is_name_char(s[i])
}

/// True when some character of `s` is a lowercase letter.
pub open spec fn contains_name_char(s: Seq<char>) -> bool {
    exists|i: int| 0 <= i < s.len() && is_name_char(s[i])
}

/// The letter for a value in `[0, 26)`.
pub open spec fn letter_char(k: int) -> char {
    if k == 0 { 'a' }
    else if k == 1 { 'b' }
    else if k == 2 { 'c' }
    else if k == 3 { 'd' }
    else if k == 4 { 'e' }
    else if k == 5 { 'f' }
    else if k == 6 { 'g' }
    else if k == 7 { 'h' }
    else if k == 8 { 'i' }
    else if k == 9 { 'j' }
    else if k == 10 { 'k' }
    else if k == 11 { 'l' }
    else if k == 12 { 'm' }
    else if k == 13 { 'n' }
    else if k == 14 { 'o' }
    else if k == 15 { 'p' }
    else if k == 16 { 'q' }
    else if k == 17 { 'r' }
    else if k == 18 { 's' }
    else if k == 19 { 't' }
    else if k == 20 { 'u' }
    else if k == 21 { 'v' }
    else if k == 22 { 'w' }
    else if k == 23 { 'x' }
    else if k == 24 { 'y' }
    else { 'z' }
}

/// The name encoding of `x`: base 26 over the letters, where `a` stands for
/// one, written most significant letter first, and zero encodes to the
/// empty sequence.
pub open spec fn name_seq(x: nat) -> Seq<char>
    decreases x,
{
    if x == 0 {
        Seq::empty()
    } else {
        name_seq(((x - 1) / 26) as nat).push(letter_char(((x - 1) % 26) as int))
    }
}

/// The value a name denotes: a fold of `value * 26 + letter + 1`.
pub open spec fn name_value(s: Seq<char>) -> int
    decreases s.len(),
{
    if s.len() == 0 {
        0
    } else {
        name_value(s.drop_last()) * 26 + (s.last() as int - 96)
    }
}

/// The letter of a value below twenty-six.
fn letter_to_char(k: u64) -> (c: char)
    requires
        k < 26,
    ensures
        c == letter_char(k as int),
        is_name_char(c),
        c as int == 97 + k,
{
    if k == 0 { 'a' }
    else if k == 1 { 'b' }
    else if k == 2 { 'c' }
    else if k == 3 { 'd' }
    else if k == 4 { 'e' }
    else if k == 5 { 'f' }
    else if k == 6 { 'g' }
    else if k == 7 { 'h' }
    else if k == 8 { 'i' }
    else if k == 9 { 'j' }
    else if k == 10 { 'k' }
    else if k == 11 { 'l' }
    else if k == 12 { 'm' }
    else if k == 13 { 'n' }
    else if k == 14 { 'o' }
    else if k == 15 { 'p' }
    else if k == 16 { 'q' }
    else if k == 17 { 'r' }
    else if k == 18 { 's' }
    else if k == 19 { 't' }
    else if k == 20 { 'u' }
    else if k == 21 { 'v' }
    else if k == 22 { 'w' }
    else if k == 23 { 'x' }
    else if k == 24 { 'y' }
    else { 'z' }
}

/// The one-based value of a letter, or `None` for any other character.
fn char_letter_value(c: char) -> (r: Option<u64>)
    ensures
        match r {
            Some(v) => 1 <= v <= 26 && is_name_char(c) && c as int == 96 + v,
            None => !is_name_char(c),
        },
{
    match c {
        'a' => Some(1),
        'b' => Some(2),
        'c' => Some(3),
        'd' => Some(4),
        'e' => Some(5),
        'f' => Some(6),
        'g' => Some(7),
        'h' => Some(8),
        'i' => Some(9),
        'j' => Some(10),
        'k' => Some(11),
        'l' => Some(12),
        'm' => Some(13),
        'n' => Some(14),
        'o' => Some(15),
        'p' => Some(16),
        'q' => Some(17),
        'r' => Some(18),
        's' => Some(19),
        't' => Some(20),
        'u' => Some(21),
        'v' => Some(22),
        'w' => Some(23),
        'x' => Some(24),
        'y' => Some(25),
        'z' => Some(26),
        _ => None,
    }
}

/// A name's value is never negative when its characters are letters.
pub proof fn lemma_name_value_nonneg(s: Seq<char>)
    requires
        all_name_chars(s),
    ensures
        name_value(s) >= 0,
    decreases s.len(),
{
    if s.len() > 0 {
        assert(all_name_chars(s.drop_last()));
        lemma_name_value_nonneg(s.drop_last());
    }
}

/// Extending an all-letter sequence never decreases its value.
pub proof fn lemma_name_value_prefix(s: Seq<char>, n: int)
    requires
        0 <= n <= s.len(),
        all_name_chars(s),
        name_value(s.subrange(0, n)) >= 0,
    ensures
        name_value(s) >= name_value(s.subrange(0, n)),
    decreases s.len() - n,
{
    if n < s.len() {
        let p = s.subrange(0, n);
        let q = s.subrange(0, n + 1);
        assert(q.drop_last() =~= p);
        assert(is_name_char(q.last()));
        assert(name_value(q) == name_value(p) * 26 + (q.last() as int - 96));
        lemma_name_value_prefix(s, n + 1);
        assert(s.subrange(0, s.len() as int) =~= s);
    } else {
        assert(s.subrange(0, s.len() as int) =~= s);
    }
}

/// The name of `x` denotes `x`, consists of letters alone, and is nonempty
/// whenever `x` is.
pub proof fn lemma_name_seq_value(x: nat)
    ensures
        all_name_chars(name_seq(x)),
        name_value(name_seq(x)) == x,
        x >= 1 ==> name_seq(x).len() >= 1,
    decreases x,
{
    if x > 0 {
        let x1 = (x - 1) as nat;
        lemma_name_seq_value((x1 / 26) as nat);
        let p = name_seq((x1 / 26) as nat);
        let k = (x1 % 26) as int;
        let s = name_seq(x);
        lemma_fundamental_div_mod(x1 as int, 26);
        lemma_mod_bound(x1 as int, 26);
        assert(s == p.push(letter_char(k)));
        assert(s.drop_last() =~= p);
        assert(s.last() == letter_char(k));
        assert(letter_char(k) as int == 97 + k);
        assert(is_name_char(letter_char(k)));
        assert(name_value(s) == name_value(p) * 26 + (k + 1));
        assert(name_value(p) * 26 == 26 * (x1 as int / 26));
        assert forall|i: int| 0 <= i < s.len() implies is_name_char(s[i]) by {
            if i < p.len() {
                assert(s[i] == p[i]);
            }
        }
    }
}

/// A parse error of the identifier codec, with a descriptive message.
#[derive(Debug)]
pub struct ParseError {
    /// What was wrong with the input.
    pub message: String,
}

/// An identifier: the ordinal number of one satoshi in issuance order.
#[derive(Clone, Copy, Debug, PartialEq, Eq, Structural, Hash)]
pub struct Ordinal(pub u64);

impl Ordinal {
    /// Total number of identifiers ever minted.
    pub const SUPPLY: u64 = 2_099_999_997_690_000;

    /// The last identifier: `SUPPLY - 1`.
    pub fn last() -> (r: Ordinal)
        ensures
            r.0 == Ordinal::SUPPLY - 1,
    {
        Ordinal(Ordinal::SUPPLY - 1)
    }

    /// The identifier as a plain integer.
    pub fn n(self) -> (r: u64)
        ensures
            r == self.0,
    {
        self.0
    }

    /// The halving epoch that minted this identifier.
    pub fn epoch(self) -> (e: Epoch)
        requires
            self.0 < Ordinal::SUPPLY,
        ensures
            e.0 == epoch_of_ordinal(self.0 as nat),
            e.0 < 33,
            epoch_starting_ordinal(e.0 as nat) <= self.0,
            self.0 < epoch_starting_ordinal((e.0 + 1) as nat),
    {
        let n = self.0;
        proof {
            lemma_epoch_of_ordinal_props(n as nat);
        }
        let mut e: u64 = 0;
        while e < 33
            invariant
                e <= 33,
                n == self.0,
                n < Ordinal::SUPPLY,
                epoch_scan(n as nat, 0) == epoch_scan(n as nat, e as nat),
                epoch_starting_ordinal(e as nat) <= n,
                epoch_of_ordinal(n as nat) < 33,
            decreases 33 - e,
        {
            if n < Epoch(e + 1).starting_ordinal().0 {
                proof {
                    assert(epoch_scan(n as nat, e as nat) == e as nat);
                }
                return Epoch(e);
            }
            e = e + 1;
        }
        proof {
            assert(epoch_of_ordinal(n as nat) == 33);
            assert(false);
        }
        Epoch(e)
    }

    /// The position of this identifier within its epoch.
    pub fn epoch_position(self) -> (r: u64)
        requires
            self.0 < Ordinal::SUPPLY,
        ensures
            r == ordinal_epoch_position(self.0 as nat),
    {
        let epoch = self.epoch();
        self.0 - epoch.starting_ordinal().0
    }

    /// The height of the block whose coinbase minted this identifier.
    pub fn height(self) -> (h: Height)
        requires
            self.0 < Ordinal::SUPPLY,
        ensures
            h.0 == ordinal_height(self.0 as nat),
            h.0 < 33 * 210_000,
    {
        proof {
            lemma_ordinal_height_decomposition(self.0 as nat);
        }
        let epoch = self.epoch();
        let position = self.epoch_position();
        let subsidy = epoch.subsidy();
        proof {
            lemma_subsidy_bounds(epoch.0 as nat);
        }
        Height(epoch.starting_height().0 + position / subsidy)
    }

    /// The position of this identifier within its block's emission.
    pub fn third(self) -> (r: u64)
        requires
            self.0 < Ordinal::SUPPLY,
        ensures
            r == ordinal_third(self.0 as nat),
    {
        let epoch = self.epoch();
        let position = self.epoch_position();
        let subsidy = epoch.subsidy();
        proof {
            lemma_subsidy_bounds(epoch.0 as nat);
        }
        position % subsidy
    }

    /// The difficulty period of the block that minted this identifier.
    pub fn period(self) -> (r: u64)
        requires
            self.0 < Ordinal::SUPPLY,
        ensures
            r == ordinal_period(self.0 as nat),
    {
        self.height().0 / crate::DIFFCHANGE_INTERVAL
    }

    /// The cycle this identifier belongs to.
    pub fn cycle(self) -> (r: u64)
        requires
            self.0 < Ordinal::SUPPLY,
        ensures
            r == ordinal_cycle(self.0 as nat),
    {
        self.epoch().0 / crate::CYCLE_EPOCHS
    }

    /// Fast test for the common rarity class: true exactly when this
    /// identifier is not the first of its block.
    pub fn is_common(self) -> (r: bool)
        requires
            self.0 < Ordinal::SUPPLY,
        ensures
            r <==> ordinal_third(self.0 as nat) != 0,
    {
        let epoch = self.epoch();
        proof {
            lemma_subsidy_bounds(epoch.0 as nat);
        }
        (self.0 - epoch.starting_ordinal().0) % epoch.subsidy() != 0
    }

    /// The degree notation of this identifier.
    pub fn degree(self) -> (d: crate::degree::Degree)
        requires
            self.0 < Ordinal::SUPPLY,
        ensures
            d.hour == ordinal_cycle(self.0 as nat),
            d.minute == ordinal_height(self.0 as nat) % 210_000,
            d.second == ordinal_height(self.0 as nat) % 2016,
            d.third == ordinal_third(self.0 as nat),
    {
        let height = self.height();
        crate::degree::Degree {
            hour: self.cycle(),
            minute: height.0 % crate::SUBSIDY_HALVING_INTERVAL,
            second: height.0 % crate::DIFFCHANGE_INTERVAL,
            third: self.third(),
        }
    }

    /// The decimal notation of this identifier.
    pub fn decimal(self) -> (d: crate::decimal::Decimal)
        requires
            self.0 < Ordinal::SUPPLY,
        ensures
            d.height.0 == ordinal_height(self.0 as nat),
            d.offset == ordinal_third(self.0 as nat),
    {
        crate::decimal::Decimal { height: self.height(), offset: self.third() }
    }

    /// The full rarity classification of this identifier.
    pub fn rarity(self) -> (r: crate::rarity::Rarity)
        requires
            self.0 < Ordinal::SUPPLY,
        ensures
            r == crate::rarity::rarity_of(self.0 as nat),
    {
        let d = self.degree();
        if d.hour == 0 && d.minute == 0 && d.second == 0 && d.third == 0 {
            crate::rarity::Rarity::Mythic
        } else if d.minute == 0 && d.second == 0 && d.third == 0 {
            crate::rarity::Rarity::Legendary
        } else if d.minute == 0 && d.third == 0 {
            crate::rarity::Rarity::Epic
        } else if d.second == 0 && d.third == 0 {
            crate::rarity::Rarity::Rare
        } else if d.third == 0 {
            crate::rarity::Rarity::Uncommon
        } else {
            crate::rarity::Rarity::Common
        }
    }

    /// The name of this identifier: base 26 over the letters, reversed in
    /// magnitude so that the last identifier is called `a`.
    pub fn name(self) -> (r: String)
        requires
            self.0 < Ordinal::SUPPLY,
        ensures
            r@ == name_seq((Ordinal::SUPPLY - self.0) as nat),
    {
        let ghost total = (Ordinal::SUPPLY - self.0) as nat;
        let mut v: Vec<char> = Vec::new();
        let mut x: u64 = Ordinal::SUPPLY - self.0;
        while x > 0
            invariant
                name_seq(total) == name_seq(x as nat) + v@,
            decreases x,
        {
            let k = (x - 1) % 26;
            let c = letter_to_char(k);
            v.insert(0, c);
            proof {
                let x1 = (x - 1) as nat;
                assert(name_seq(x as nat) == name_seq((x1 / 26) as nat).push(letter_char((x1
                    % 26) as int)));
                assert(name_seq(x as nat) + v@.drop_first() =~= name_seq((x1 / 26) as nat) + v@);
            }
            x = (x - 1) / 26;
        }
        assert(name_seq(total) =~= v@);
        crate::chars::string_of_chars(&v)
    }

    /// Decode a name.  Accepts one or more lowercase letters whose value
    /// stays within the supply, so that the decoded identifier is valid;
    /// anything else — a foreign character, the empty string, or a value
    /// past the supply — is rejected.
    pub fn from_name(s: &str) -> (r: Result<Ordinal, ParseError>)
        ensures
            match r {
                Ok(o) => all_name_chars(s@) && 1 <= name_value(s@) <= Ordinal::SUPPLY && o.0
                    == Ordinal::SUPPLY - name_value(s@) && o.0 < Ordinal::SUPPLY,
                Err(_) => !all_name_chars(s@) || name_value(s@) > Ordinal::SUPPLY || name_value(
                    s@,
                ) < 1,
            },
    {
        let v = crate::chars::chars_of_str(s);
        let mut x: u64 = 0;
        let mut i: usize = 0;
        while i < v.len()
            invariant
                i <= v@.len(),
                v@ == s@,
                all_name_chars(v@.take(i as int)),
                x == name_value(v@.take(i as int)),
                x <= Ordinal::SUPPLY,
            decreases v@.len() - i,
        {
            let val = match char_letter_value(v[i]) {
                Some(val) => val,
                None => {
                    proof {
                        assert(!is_name_char(v@[i as int]));
                        assert(!all_name_chars(v@));
                    }
                    return Err(ParseError {
                        message: String::from_str("invalid character in ordinal name"),
                    });
                },
            };
            assert(v@.take(i + 1).drop_last() =~= v@.take(i as int));
            assert(v@.take(i + 1).last() == v@[i as int]);
            x = x * 26 + val;
            if x > Ordinal::SUPPLY {
                proof {
                    let p = v@.take(i + 1);
                    assert(name_value(p) == x);
                    assert(all_name_chars(p));
                    if all_name_chars(v@) {
                        lemma_name_value_prefix(v@, i + 1);
                        assert(v@.subrange(0, i + 1) =~= p);
                    }
                }
                return Err(ParseError { message: String::from_str("ordinal name out of range") });
            }
            i = i + 1;
        }
        assert(v@.take(v@.len() as int) =~= v@);
        if x == 0 {
            return Err(ParseError { message: String::from_str("ordinal name out of range") });
        }
        Ok(Ordinal(Ordinal::SUPPLY - x))
    }

    /// Decode a decimal, `<height>.<offset>`.
    pub fn from_decimal(s: &str) -> (r: Result<Ordinal, ParseError>)
        ensures
            match r {
                Ok(o) => crate::decimal::decimal_parse(s@) == Some(o.0 as int),
                Err(_) => crate::decimal::decimal_parse(s@) is None,
            },
    {
        let v = crate::chars::chars_of_str(s);
        let dot = match crate::chars::index_of_char(&v, '.') {
            Some(i) => i,
            None => {
                proof {
                    crate::chars::lemma_first_index_of_props(v@, '.');
                }
                return Err(ParseError { message: String::from_str("missing period") });
            },
        };
        proof {
            crate::chars::lemma_first_index_of_unique(v@, '.', dot as int);
        }
        let h_chars = crate::chars::subvec(&v, 0, dot);
        let o_chars = crate::chars::subvec(&v, dot + 1, v.len());
        let h = match crate::chars::parse_u64_chars(&h_chars) {
            Some(h) => h,
            None => {
                return Err(ParseError { message: String::from_str("invalid height") });
            },
        };
        let o = match crate::chars::parse_u64_chars(&o_chars) {
            Some(o) => o,
            None => {
                return Err(ParseError { message: String::from_str("invalid offset") });
            },
        };
        let height = Height(h);
        let subsidy = height.subsidy();
        if o >= subsidy {
            return Err(ParseError { message: String::from_str("invalid block offset") });
        }
        proof {
            crate::height::lemma_height_block_within_supply(h as nat);
        }
        Ok(Ordinal(height.starting_ordinal().0 + o))
    }

    /// Decode a degree, `C°E′P″B‴`, where the `‴B` tail may be omitted.
    #[verifier::rlimit(100)]
    pub fn from_degree(s: &str) -> (r: Result<Ordinal, ParseError>)
        ensures
            match r {
                Ok(o) => crate::degree::degree_parse(s@) == Some(o.0 as int),
                Err(_) => crate::degree::degree_parse(s@) is None,
            },
    {
        let v = crate::chars::chars_of_str(s);
        let i_deg = match crate::chars::index_of_char(&v, '\u{00b0}') {
            Some(i) => i,
            None => {
                proof {
                    crate::chars::lemma_first_index_of_props(v@, '\u{00b0}');
                }
                return Err(ParseError { message: String::from_str("missing degree symbol") });
            },
        };
        proof {
            crate::chars::lemma_first_index_of_unique(v@, '\u{00b0}', i_deg as int);
        }
        let vlen = v.len();
        assert(i_deg < vlen);
        let c_chars = crate::chars::subvec(&v, 0, i_deg);
        let rest1 = crate::chars::subvec(&v, i_deg + 1, vlen);
        let cycle = match crate::chars::parse_u64_chars(&c_chars) {
            Some(c) => c,
            None => {
                return Err(ParseError { message: String::from_str("invalid cycle number") });
            },
        };
        let i_min = match crate::chars::index_of_char(&rest1, '\u{2032}') {
            Some(i) => i,
            None => {
                proof {
                    crate::chars::lemma_first_index_of_props(rest1@, '\u{2032}');
                }
                return Err(ParseError { message: String::from_str("missing minute symbol") });
            },
        };
        proof {
            crate::chars::lemma_first_index_of_unique(rest1@, '\u{2032}', i_min as int);
        }
        let e_chars = crate::chars::subvec(&rest1, 0, i_min);
        let rest2 = crate::chars::subvec(&rest1, i_min + 1, rest1.len());
        let epoch_offset = match crate::chars::parse_u64_chars(&e_chars) {
            Some(e) => e,
            None => {
                return Err(ParseError { message: String::from_str("invalid epoch offset") });
            },
        };
        if epoch_offset >= crate::SUBSIDY_HALVING_INTERVAL {
            return Err(ParseError { message: String::from_str("invalid epoch offset") });
        }
        let i_sec = match crate::chars::index_of_char(&rest2, '\u{2033}') {
            Some(i) => i,
            None => {
                proof {
                    crate::chars::lemma_first_index_of_props(rest2@, '\u{2033}');
                }
                return Err(ParseError { message: String::from_str("missing second symbol") });
            },
        };
        proof {
            crate::chars::lemma_first_index_of_unique(rest2@, '\u{2033}', i_sec as int);
        }
        let p_chars = crate::chars::subvec(&rest2, 0, i_sec);
        let rest3 = crate::chars::subvec(&rest2, i_sec + 1, rest2.len());
        let period_offset = match crate::chars::parse_u64_chars(&p_chars) {
            Some(p) => p,
            None => {
                return Err(ParseError { message: String::from_str("invalid period offset") });
            },
        };
        if period_offset >= crate::DIFFCHANGE_INTERVAL {
            return Err(ParseError { message: String::from_str("invalid period offset") });
        }
        let relationship = period_offset + crate::SUBSIDY_HALVING_INTERVAL * crate::CYCLE_EPOCHS
            - epoch_offset;
        if relationship % crate::HALVING_INCREMENT != 0 {
            return Err(ParseError {
                message: String::from_str(
                    "relationship between epoch offset and period offset must be multiple of 336",
                ),
            });
        }
        if cycle >= crate::CYCLE_EPOCHS {
            return Err(ParseError { message: String::from_str("invalid cycle number") });
        }
        let epoch = cycle * crate::CYCLE_EPOCHS + (relationship % crate::DIFFCHANGE_INTERVAL)
            / crate::HALVING_INCREMENT;
        let height = Height(epoch * crate::SUBSIDY_HALVING_INTERVAL + epoch_offset);
        let block_offset: u64 = match crate::chars::index_of_char(&rest3, '\u{2034}') {
            None => {
                proof {
                    crate::chars::lemma_first_index_of_props(rest3@, '\u{2034}');
                }
                if rest3.len() != 0 {
                    return Err(ParseError { message: String::from_str("trailing characters") });
                }
                0
            },
            Some(i_tri) => {
                proof {
                    crate::chars::lemma_first_index_of_unique(rest3@, '\u{2034}', i_tri as int);
                }
                let b_chars = crate::chars::subvec(&rest3, 0, i_tri);
                let b = match crate::chars::parse_u64_chars(&b_chars) {
                    Some(b) => b,
                    None => {
                        return Err(ParseError {
                            message: String::from_str("invalid block offset"),
                        });
                    },
                };
                if rest3.len() - (i_tri + 1) != 0 {
                    assert(rest3@.subrange(i_tri + 1, rest3@.len() as int).len() != 0);
                    return Err(ParseError { message: String::from_str("trailing characters") });
                }
                assert(rest3@.subrange(i_tri + 1, rest3@.len() as int).len() == 0);
                b
            },
        };
        let subsidy = height.subsidy();
        if block_offset >= subsidy {
            return Err(ParseError { message: String::from_str("invalid block offset") });
        }
        proof {
            crate::height::lemma_height_block_within_supply(height.0 as nat);
        }
        Ok(Ordinal(height.starting_ordinal().0 + block_offset))
    }

    /// Whether some character of `v` is a lowercase letter.
    fn any_name_char(v: &Vec<char>) -> (r: bool)
        ensures
            r == contains_name_char(v@),
    {
        let mut i: usize = 0;
        while i < v.len()
            invariant
                i <= v@.len(),
                forall|j: int| 0 <= j < i ==> !is_name_char(v@[j]),
            decreases v@.len() - i,
        {
            if char_letter_value(v[i]).is_some() {
                return true;
            }
            i = i + 1;
        }
        false
    }

    /// Decode an identifier from any of its textual forms.  A string with a
    /// lowercase letter is read as a name; else one with a degree sign as a
    /// degree; else one with a period as a decimal; else as a plain integer
    /// below the supply.  The percentile form rests on floating-point
    /// arithmetic, which has no place here: a string with a percent sign is
    /// rejected, and the embedding application handles that form.
    pub fn from_str(s: &str) -> (r: Result<Ordinal, ParseError>)
        ensures
            contains_name_char(s@) ==> (match r {
                Ok(o) => all_name_chars(s@) && 1 <= name_value(s@) <= Ordinal::SUPPLY && o.0
                    == Ordinal::SUPPLY - name_value(s@) && o.0 < Ordinal::SUPPLY,
                Err(_) => !all_name_chars(s@) || name_value(s@) > Ordinal::SUPPLY || name_value(
                    s@,
                ) < 1,
            }),
            !contains_name_char(s@) && crate::chars::contains_char(s@, '\u{00b0}') ==> (match r {
                Ok(o) => crate::degree::degree_parse(s@) == Some(o.0 as int),
                Err(_) => crate::degree::degree_parse(s@) is None,
            }),
            !contains_name_char(s@) && !crate::chars::contains_char(s@, '\u{00b0}')
                && crate::chars::contains_char(s@, '%') ==> r is Err,
            !contains_name_char(s@) && !crate::chars::contains_char(s@, '\u{00b0}')
                && !crate::chars::contains_char(s@, '%') && crate::chars::contains_char(s@, '.')
                ==> (match r {
                Ok(o) => crate::decimal::decimal_parse(s@) == Some(o.0 as int),
                Err(_) => crate::decimal::decimal_parse(s@) is None,
            }),
            !contains_name_char(s@) && !crate::chars::contains_char(s@, '\u{00b0}')
                && !crate::chars::contains_char(s@, '%') && !crate::chars::contains_char(s@, '.')
                ==> (match r {
                Ok(o) => crate::chars::parses_as_u64(s@) && crate::chars::u64_value_of(s@)
                    < Ordinal::SUPPLY && o.0 == crate::chars::u64_value_of(s@),
                Err(_) => !crate::chars::parses_as_u64(s@) || crate::chars::u64_value_of(s@)
                    >= Ordinal::SUPPLY,
            }),
    {
        let v = crate::chars::chars_of_str(s);
        if Self::any_name_char(&v) {
            Self::from_name(s)
        } else if crate::chars::contains_char_exec(&v, '\u{00b0}') {
            Self::from_degree(s)
        } else if crate::chars::contains_char_exec(&v, '%') {
            Err(ParseError { message: String::from_str("cannot parse percentile notation") })
        } else if crate::chars::contains_char_exec(&v, '.') {
            Self::from_decimal(s)
        } else {
            match crate::chars::parse_u64_chars(&v) {
                None => Err(ParseError { message: String::from_str("invalid integer") }),
                Some(n) => {
                    if n >= Ordinal::SUPPLY {
                        Err(ParseError { message: String::from_str("invalid ordinal") })
                    } else {
                        Ok(Ordinal(n))
                    }
                },
            }
        }
    }
}

/// A letter occurs in a concatenation exactly when it occurs in a part.
proof fn lemma_name_char_append(a: Seq<char>, b: Seq<char>)
    ensures
        contains_name_char(a + b) <==> (contains_name_char(a) || contains_name_char(b)),
{
    if contains_name_char(a + b) {
        let i = choose|i: int| 0 <= i < (a + b).len() && is_name_char((a + b)[i]);
        if i < a.len() {
            assert(is_name_char(a[i]));
        } else {
            assert(is_name_char(b[i - a.len()]));
        }
    }
    if contains_name_char(a) {
        let i = choose|i: int| 0 <= i < a.len() && is_name_char(a[i]);
        assert(is_name_char((a + b)[i]));
    }
    if contains_name_char(b) {
        let i = choose|i: int| 0 <= i < b.len() && is_name_char(b[i]);
        assert(is_name_char((a + b)[a.len() + i]));
    }
}

/// Digits are not letters.
proof fn lemma_digits_no_name_char(s: Seq<char>)
    requires
        crate::chars::all_digits(s),
    ensures
        !contains_name_char(s),
{
    if contains_name_char(s) {
        let i = choose|i: int| 0 <= i < s.len() && is_name_char(s[i]);
        assert(crate::chars::is_digit_char(s[i]));
    }
}

/// Name round trip: the name of a valid identifier consists of letters, so
/// the dispatcher reads it as a name, and its value leads back to the
/// identifier.
pub proof fn lemma_name_round_trip(n: nat)
    requires
        n < Ordinal::SUPPLY,
    ensures
        contains_name_char(name_seq((Ordinal::SUPPLY - n) as nat)),
        all_name_chars(name_seq((Ordinal::SUPPLY - n) as nat)),
        name_value(name_seq((Ordinal::SUPPLY - n) as nat)) == Ordinal::SUPPLY - n,
{
    let x = (Ordinal::SUPPLY - n) as nat;
    lemma_name_seq_value(x);
    assert(is_name_char(name_seq(x)[0]));
}

/// Decimal round trip: the decimal text of a valid identifier dispatches as
/// a decimal and parses back to the identifier.
pub proof fn lemma_decimal_round_trip(n: nat)
    requires
        n < Ordinal::SUPPLY,
    ensures
        ({
            let ds = crate::decimal::decimal_seq(
                ordinal_height(n) as nat,
                ordinal_third(n) as nat,
            );
            !contains_name_char(ds) && !crate::chars::contains_char(ds, '\u{00b0}')
                && !crate::chars::contains_char(ds, '%') && crate::chars::contains_char(ds, '.')
                && crate::decimal::decimal_parse(ds) == Some(n as int)
        }),
{
    lemma_ordinal_height_decomposition(n);
    lemma_epoch_of_ordinal_props(n);
    lemma_subsidy_bounds(epoch_of_ordinal(n));
    let h = ordinal_height(n) as nat;
    let t = ordinal_third(n) as nat;
    crate::chars::lemma_dec_seq_value(h);
    crate::chars::lemma_dec_seq_value(t);
    let a = crate::chars::dec_seq(h);
    let b = crate::chars::dec_seq(t);
    let ds = crate::decimal::decimal_seq(h, t);
    let dot = seq!['.'];
    crate::chars::lemma_digits_not_contains(a, '.');
    crate::chars::lemma_first_index_of_append(a, '.', b);
    assert(crate::chars::first_index_of(ds, '.') == a.len());
    assert(ds.subrange(0, a.len() as int) =~= a);
    assert(ds.subrange(a.len() as int + 1, ds.len() as int) =~= b);
    assert(crate::chars::numeral_body(a) == a);
    assert(crate::chars::numeral_body(b) == b);
    assert(crate::chars::parses_as_u64(a));
    assert(crate::chars::parses_as_u64(b));
    assert(crate::height::subsidy_of_height(h) == subsidy_of_epoch(epoch_of_ordinal(n)));
    assert(crate::decimal::decimal_parse(ds) == Some(n as int));
    lemma_digits_no_name_char(a);
    lemma_digits_no_name_char(b);
    lemma_name_char_append(a + dot, b);
    lemma_name_char_append(a, dot);
    assert(!is_name_char('.'));
    assert(!contains_name_char(dot));
    crate::chars::lemma_contains_char_append(a + dot, b, '\u{00b0}');
    crate::chars::lemma_contains_char_append(a, dot, '\u{00b0}');
    crate::chars::lemma_digits_not_contains(a, '\u{00b0}');
    crate::chars::lemma_digits_not_contains(b, '\u{00b0}');
    assert(!crate::chars::contains_char(dot, '\u{00b0}')) by {
        if crate::chars::contains_char(dot, '\u{00b0}') {
            let i = choose|i: int| 0 <= i < dot.len() && dot[i] == '\u{00b0}';
        }
    }
    crate::chars::lemma_contains_char_append(a + dot, b, '%');
    crate::chars::lemma_contains_char_append(a, dot, '%');
    crate::chars::lemma_digits_not_contains(a, '%');
    crate::chars::lemma_digits_not_contains(b, '%');
    assert(!crate::chars::contains_char(dot, '%')) by {
        if crate::chars::contains_char(dot, '%') {
            let i = choose|i: int| 0 <= i < dot.len() && dot[i] == '%';
        }
    }
    assert(ds[a.len() as int] == '.');
}

/// A single character that is not a letter yields no letter.
proof fn lemma_singleton_not_name(c: char)
    requires
        !is_name_char(c),
    ensures
        !contains_name_char(seq![c]),
{
    if contains_name_char(seq![c]) {
        let i = choose|i: int| 0 <= i < seq![c].len() && is_name_char(seq![c][i]);
        assert(seq![c][i] == c);
    }
}

/// The degree text of anything holds a degree sign and no letter.
#[verifier::rlimit(100)]
proof fn lemma_degree_seq_chars(hour: nat, minute: nat, second: nat, third: nat)
    ensures
        !contains_name_char(crate::degree::degree_seq(hour, minute, second, third)),
        crate::chars::contains_char(
            crate::degree::degree_seq(hour, minute, second, third),
            '\u{00b0}',
        ),
{
    crate::chars::lemma_dec_seq_value(hour);
    crate::chars::lemma_dec_seq_value(minute);
    crate::chars::lemma_dec_seq_value(second);
    crate::chars::lemma_dec_seq_value(third);
    let a1 = crate::chars::dec_seq(hour);
    let a2 = crate::chars::dec_seq(minute);
    let a3 = crate::chars::dec_seq(second);
    let a4 = crate::chars::dec_seq(third);
    let gs = crate::degree::degree_seq(hour, minute, second, third);
    let rest1 = a2 + seq!['\u{2032}'] + a3 + seq!['\u{2033}'] + a4 + seq!['\u{2034}'];
    let rest2 = a3 + seq!['\u{2033}'] + a4 + seq!['\u{2034}'];
    let rest3 = a4 + seq!['\u{2034}'];
    assert(gs[a1.len() as int] == '\u{00b0}') by {
        assert(gs =~= a1 + seq!['\u{00b0}'] + rest1);
    }
    lemma_digits_no_name_char(a1);
    lemma_digits_no_name_char(a2);
    lemma_digits_no_name_char(a3);
    lemma_digits_no_name_char(a4);
    lemma_singleton_not_name('\u{00b0}');
    lemma_singleton_not_name('\u{2032}');
    lemma_singleton_not_name('\u{2033}');
    lemma_singleton_not_name('\u{2034}');
    lemma_name_char_append(a4, seq!['\u{2034}']);
    lemma_name_char_append(a3, seq!['\u{2033}'] + rest3);
    lemma_name_char_append(seq!['\u{2033}'], rest3);
    lemma_name_char_append(a2, seq!['\u{2032}'] + rest2);
    lemma_name_char_append(seq!['\u{2032}'], rest2);
    lemma_name_char_append(a1, seq!['\u{00b0}'] + rest1);
    lemma_name_char_append(seq!['\u{00b0}'], rest1);
    assert(rest3 == a4 + seq!['\u{2034}']);
    assert(rest2 == a3 + (seq!['\u{2033}'] + rest3)) by {
        assert(rest2 =~= a3 + (seq!['\u{2033}'] + rest3));
    }
    assert(rest1 == a2 + (seq!['\u{2032}'] + rest2)) by {
        assert(rest1 =~= a2 + (seq!['\u{2032}'] + rest2));
    }
    assert(gs == a1 + (seq!['\u{00b0}'] + rest1)) by {
        assert(gs =~= a1 + (seq!['\u{00b0}'] + rest1));
    }
}

/// Degree round trip: the degree text of a valid identifier dispatches as a
/// degree and parses back to the identifier.
#[verifier::rlimit(100)]
pub proof fn lemma_degree_round_trip(n: nat)
    requires
        n < Ordinal::SUPPLY,
    ensures
        ({
            let gs = crate::degree::degree_seq(
                ordinal_cycle(n),
                (ordinal_height(n) % 210_000) as nat,
                (ordinal_height(n) % 2016) as nat,
                ordinal_third(n) as nat,
            );
            !contains_name_char(gs) && crate::chars::contains_char(gs, '\u{00b0}')
                && crate::degree::degree_parse(gs) == Some(n as int)
        }),
{
    lemma_ordinal_height_decomposition(n);
    lemma_epoch_of_ordinal_props(n);
    let e = epoch_of_ordinal(n);
    lemma_subsidy_bounds(e);
    let h = ordinal_height(n);
    let hour = ordinal_cycle(n);
    let minute = (h % 210_000) as nat;
    let second = (h % 2016) as nat;
    let third = ordinal_third(n) as nat;
    lemma_fundamental_div_mod(h, 210_000);
    lemma_mod_bound(h, 210_000);
    lemma_fundamental_div_mod(h, 2016);
    lemma_mod_bound(h, 2016);
    assert(h == 210_000 * e + minute);
    crate::degree::lemma_degree_relationship(e, minute);
    assert((210_000 * e + minute) % 2016 == second);
    let relationship = second + 1_260_000 - minute;
    assert(relationship % 336 == 0);
    assert(relationship % 2016 == 336 * (e % 6));
    assert((relationship % 2016) / 336 == e % 6);
    // the cycle number: at most five, and six of them plus the remainder
    // recover the epoch
    vstd::arithmetic::div_mod::lemma_div_is_ordered(e as int, 32, 6);
    lemma_fundamental_div_mod(e as int, 6);
    assert(hour == e / 6);
    assert(hour * 6 + (e % 6) == e as int);
    // the parsed fields pass every bound and rebuild the identifier
    assert(minute < 210_000);
    assert(second < 2016);
    assert(hour < 6);
    assert(hour * 6 + (relationship % 2016) / 336 == e as int);
    assert((hour * 6 + (relationship % 2016) / 336) * 210_000 + minute == h);
    assert(crate::height::subsidy_of_height(h as nat) == subsidy_of_epoch(e));
    assert(third < crate::height::subsidy_of_height(h as nat));
    assert(crate::height::height_starting_ordinal(h as nat) + third == n);
    crate::degree::lemma_degree_parse_of_fields(hour, minute, second, third, h as nat, n as int);
    // dispatch: the text holds a degree sign and no letter
    lemma_degree_seq_chars(hour, minute, second, third);
}

impl PartialEq<u64> for Ordinal {
    fn eq(&self, other: &u64) -> (r: bool) {
        self.0 == *other
    }
}

impl vstd::std_specs::cmp::PartialEqSpecImpl<u64> for Ordinal {
    open spec fn obeys_eq_spec() -> bool {
        true
    }

    open spec fn eq_spec(&self, other: &u64) -> bool {
        self.0 == *other
    }
}

impl PartialOrd<u64> for Ordinal {
    fn partial_cmp(&self, other: &u64) -> (r: Option<core::cmp::Ordering>) {
        if self.0 < *other {
            Some(core::cmp::Ordering::Less)
        } else if self.0 == *other {
            Some(core::cmp::Ordering::Equal)
        } else {
            Some(core::cmp::Ordering::Greater)
        }
    }
}

impl vstd::std_specs::cmp::PartialOrdSpecImpl<u64> for Ordinal {
    open spec fn obeys_partial_cmp_spec() -> bool {
        true
    }

    open spec fn partial_cmp_spec(&self, other: &u64) -> Option<core::cmp::Ordering> {
        if self.0 < *other {
            Some(core::cmp::Ordering::Less)
        } else if self.0 == *other {
            Some(core::cmp::Ordering::Equal)
        } else {
            Some(core::cmp::Ordering::Greater)
        }
    }
}

impl core::ops::Add<u64> for Ordinal {
    type Output = Ordinal;

    fn add(self, other: u64) -> (r: Ordinal) {
        Ordinal(self.0 + other)
    }
}

impl vstd::std_specs::ops::AddSpecImpl<u64> for Ordinal {
    open spec fn obeys_add_spec() -> bool {
        true
    }

    open spec fn add_req(self, other: u64) -> bool {
        self.0 + other <= u64::MAX
    }

    open spec fn add_spec(self, other: u64) -> Ordinal {
        Ordinal((self.0 + other) as u64)
    }
}

/// The fast common test agrees with the full classification: an identifier
/// is common exactly when it is not the first satoshi of its block.
pub proof fn lemma_is_common_agrees_with_rarity(n: nat)
    requires
        n < Ordinal::SUPPLY,
    ensures
        (ordinal_third(n) != 0) <==> (crate::rarity::rarity_of(n) == crate::rarity::Rarity::Common),
{
}

/// The first identifier of each epoch is epic at least: legendary when the
/// epoch starts a cycle, and mythic for the very first identifier.
pub proof fn lemma_epoch_start_rarity(e: nat)
    requires
        e < 33,
    ensures
        crate::rarity::rarity_of(epoch_starting_ordinal(e)) == if e == 0 {
            crate::rarity::Rarity::Mythic
        } else if e % 6 == 0 {
            crate::rarity::Rarity::Legendary
        } else {
            crate::rarity::Rarity::Epic
        },
{
    let n = epoch_starting_ordinal(e);
    lemma_subsidy_bounds(e);
    let s = subsidy_of_epoch(e) as int;
    assert(epoch_starting_ordinal((e + 1) as nat) == epoch_starting_ordinal(e) + 210_000
        * subsidy_of_epoch(e));
    assert(210_000 * s >= 210_000 * 1) by {
        vstd::arithmetic::mul::lemma_mul_inequality(1, s, 210_000);
        assert(s * 210_000 == 210_000 * s) by (nonlinear_arith);
        assert(1 * 210_000 == 210_000 * 1);
    }
    lemma_starting_ordinal_le_supply((e + 1) as nat);
    assert(n < Ordinal::SUPPLY);
    lemma_epoch_of_ordinal_unique(n, e);
    assert(ordinal_epoch_position(n) == 0);
    vstd::arithmetic::div_mod::lemma_div_of0(s);
    lemma_small_mod(0, s as nat);
    assert(ordinal_third(n) == 0);
    let h = ordinal_height(n);
    assert(h == 210_000 * e);
    // minute: a multiple of the halving interval has offset zero in its epoch
    vstd::arithmetic::div_mod::lemma_mod_multiples_basic(e as int, 210_000);
    assert(e as int * 210_000 == 210_000 * e) by (nonlinear_arith);
    assert(h % 210_000 == 0);
    // second: 210000 == 104 * 2016 + 336, so the height is 336 * e modulo 2016
    assert(h == 2016 * (104 * e as int) + 336 * e as int);
    lemma_mod_multiples_vanish(104 * e as int, 336 * e as int, 2016);
    let q = e as int / 6;
    let w = e as int % 6;
    lemma_fundamental_div_mod(e as int, 6);
    lemma_mod_bound(e as int, 6);
    assert(336 * e as int == 2016 * q + 336 * w);
    lemma_mod_multiples_vanish(q, 336 * w, 2016);
    lemma_small_mod((336 * w) as nat, 2016);
    assert(h % 2016 == 336 * w);
    // hour: the cycle is zero exactly in the first six epochs
    if e < 6 {
        vstd::arithmetic::div_mod::lemma_basic_div(e as int, 6);
    } else {
        vstd::arithmetic::div_mod::lemma_div_non_zero(e as int, 6);
    }
    if e == 0 {
        assert(ordinal_cycle(n) == 0);
    }
}

} // verus!
