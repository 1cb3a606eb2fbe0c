//! Character-sequence utilities shared by the textual codecs.
//!
//! The codecs work over `Vec<char>`, whose view is the same `Seq<char>` as
//! the view of the `String` it came from, so every step of encoding and
//! decoding is verified against sequence-level specifications.

use vstd::prelude::*;

verus! {

/// True for the ten ASCII digit characters.
pub open spec fn is_digit_char(c: char) -> bool {
    '0' <= c && c <= '9'
}

/// The digit character for a value in `[0, 10)`.
pub open spec fn digit_char(k: int) -> char {
    if k == 0 { '0' }
    else if k == 1 { '1' }
    else if k == 2 { '2' }
    else if k == 3 { '3' }
    else if k == 4 { '4' }
    else if k == 5 { '5' }
    else if k == 6 { '6' }
    else if k == 7 { '7' }
    else if k == 8 { '8' }
    else { '9' }
}

/// The digit character of a value below ten.
pub fn digit_to_char(d: u64) -> (c: char)
    requires
        d < 10,
    ensures
        c == digit_char(d as int),
        is_digit_char(c),
        c as int == 48 + d,
{
    if d == 0 { '0' }
    else if d == 1 { '1' }
    else if d == 2 { '2' }
    else if d == 3 { '3' }
    else if d == 4 { '4' }
    else if d == 5 { '5' }
    else if d == 6 { '6' }
    else if d == 7 { '7' }
    else if d == 8 { '8' }
    else { '9' }
}

/// The value of a digit character, or `None` for any other character.
pub fn char_digit_value(c: char) -> (r: Option<u64>)
    ensures
        match r {
            Some(d) => d < 10 && is_digit_char(c) && c as int == 48 + d,
            None => !is_digit_char(c),
        },
{
    match c {
        '0' => Some(0),
        '1' => Some(1),
        '2' => Some(2),
        '3' => Some(3),
        '4' => Some(4),
        '5' => Some(5),
        '6' => Some(6),
        '7' => Some(7),
        '8' => Some(8),
        '9' => Some(9),
        _ => None,
    }
}

/// The canonical decimal digit sequence of `x`, most significant first.
pub open spec fn dec_seq(x: nat) -> Seq<char>
    decreases x,
{
    if x < 10 {
        seq![digit_char(x as int)]
    } else {
        dec_seq((x / 10) as nat).push(digit_char((x % 10) as int))
    }
}

/// True when every character of `s` is an ASCII digit.
pub open spec fn all_digits(s: Seq<char>) -> bool {
    forall|i: int| 0 <= i < s.len() ==> is_digit_char(s[i])
}

/// The integer a digit sequence denotes, most significant digit first.
pub open spec fn digits_value(s: Seq<char>) -> int
    decreases s.len(),
{
    if s.len() == 0 {
        0
    } else {
        digits_value(s.drop_last()) * 10 + (s.last() as int - 48)
    }
}

/// The digits of an unsigned numeral: everything after an optional leading
/// plus sign.
pub open spec fn numeral_body(s: Seq<char>) -> Seq<char> {
    if s.len() > 0 && s[0] == '+' {
        s.drop_first()
    } else {
        s
    }
}

/// True when `s` is accepted by `u64::from_str`: an optional `+`, then at
/// least one digit, denoting a value that fits in a `u64`.
pub open spec fn parses_as_u64(s: Seq<char>) -> bool {
    let b = numeral_body(s);
    b.len() > 0 && all_digits(b) && digits_value(b) <= u64::MAX
}

/// The value a `u64` numeral denotes.
pub open spec fn u64_value_of(s: Seq<char>) -> int {
    digits_value(numeral_body(s))
}

/// True when `c` occurs in `s`.
pub open spec fn contains_char(s: Seq<char>, c: char) -> bool {
    exists|i: int| 0 <= i < s.len() && s[i] == c
}

/// The index of the first occurrence of `c` in `s`, or `-1` if `s` does not
/// contain `c`.
pub open spec fn first_index_of(s: Seq<char>, c: char) -> int
    decreases s.len(),
{
    if s.len() == 0 {
        -1
    } else if s[0] == c {
        0
    } else {
        let r = first_index_of(s.drop_first(), c);
        if r < 0 {
            -1
        } else {
            r + 1
        }
    }
}

/// What `first_index_of` finds: the position of `c`, with no earlier one.
pub proof fn lemma_first_index_of_props(s: Seq<char>, c: char)
    ensures
        contains_char(s, c) ==> 0 <= first_index_of(s, c) < s.len() && s[first_index_of(s, c)]
            == c && forall|j: int| 0 <= j < first_index_of(s, c) ==> s[j] != c,
        !contains_char(s, c) ==> first_index_of(s, c) == -1,
    decreases s.len(),
{
    if s.len() > 0 && s[0] != c {
        lemma_first_index_of_props(s.drop_first(), c);
        assert forall|i: int| 0 <= i < s.len() && s[i] == c implies contains_char(
            s.drop_first(),
            c,
        ) by {
            assert(s.drop_first()[i - 1] == c);
        }
        if contains_char(s.drop_first(), c) {
            let r = first_index_of(s.drop_first(), c);
            assert(s[r + 1] == s.drop_first()[r]);
            assert forall|j: int| 0 <= j < r + 1 implies s[j] != c by {
                if j > 0 {
                    assert(s.drop_first()[j - 1] == s[j]);
                }
            }
        }
    }
}

/// A position holding `c` with no earlier occurrence is the first index.
pub proof fn lemma_first_index_of_unique(s: Seq<char>, c: char, i: int)
    requires
        0 <= i < s.len(),
        s[i] == c,
        forall|j: int| 0 <= j < i ==> s[j] != c,
    ensures
        first_index_of(s, c) == i,
{
    lemma_first_index_of_props(s, c);
    assert(contains_char(s, c));
    let r = first_index_of(s, c);
    if r < i {
        assert(s[r] != c);
    }
    if r > i {
        assert(s[i] != c);
    }
}

/// In `a + [c] + b`, if `a` is free of `c`, the first `c` sits right after
/// `a`.
pub proof fn lemma_first_index_of_append(a: Seq<char>, c: char, b: Seq<char>)
    requires
        !contains_char(a, c),
    ensures
        first_index_of(a + seq![c] + b, c) == a.len(),
{
    let s = a + seq![c] + b;
    assert(s[a.len() as int] == c);
    assert forall|j: int| 0 <= j < a.len() implies s[j] != c by {
        assert(s[j] == a[j]);
        if s[j] == c {
            assert(contains_char(a, c));
        }
    }
    lemma_first_index_of_unique(s, c, a.len() as int);
}

/// A character occurs in a concatenation exactly when it occurs in a part.
pub proof fn lemma_contains_char_append(a: Seq<char>, b: Seq<char>, c: char)
    ensures
        contains_char(a + b, c) <==> (contains_char(a, c) || contains_char(b, c)),
{
    if contains_char(a + b, c) {
        let i = choose|i: int| 0 <= i < (a + b).len() && (a + b)[i] == c;
        if i < a.len() {
            assert(a[i] == c);
        } else {
            assert(b[i - a.len()] == c);
        }
    }
    if contains_char(a, c) {
        let i = choose|i: int| 0 <= i < a.len() && a[i] == c;
        assert((a + b)[i] == c);
    }
    if contains_char(b, c) {
        let i = choose|i: int| 0 <= i < b.len() && b[i] == c;
        assert((a + b)[a.len() + i] == c);
    }
}

/// Splitting a numeral field off a sequence shaped `digits, separator,
/// rest`: the separator is found right after the digits, the two sides are
/// recovered exactly, and the digits parse to their value.
pub proof fn lemma_split_numeral_field(s: Seq<char>, x: nat, sep: char, rest: Seq<char>)
    requires
        s == dec_seq(x) + seq![sep] + rest,
        !is_digit_char(sep),
        x <= u64::MAX,
    ensures
        first_index_of(s, sep) == dec_seq(x).len(),
        s.subrange(0, dec_seq(x).len() as int) == dec_seq(x),
        s.subrange(dec_seq(x).len() as int + 1, s.len() as int) == rest,
        parses_as_u64(dec_seq(x)),
        u64_value_of(dec_seq(x)) == x,
{
    let a = dec_seq(x);
    lemma_dec_seq_value(x);
    lemma_digits_not_contains(a, sep);
    lemma_first_index_of_append(a, sep, rest);
    assert(s.subrange(0, a.len() as int) =~= a);
    assert(s.subrange(a.len() as int + 1, s.len() as int) =~= rest);
    assert(numeral_body(a) == a);
}

/// A sequence of digits contains no non-digit character.
pub proof fn lemma_digits_not_contains(s: Seq<char>, c: char)
    requires
        all_digits(s),
        !is_digit_char(c),
    ensures
        !contains_char(s, c),
{
    if contains_char(s, c) {
        let i = choose|i: int| 0 <= i < s.len() && s[i] == c;
        assert(is_digit_char(s[i]));
    }
}

/// Extending an all-digit sequence never decreases its value.
pub proof fn lemma_digits_value_prefix(s: Seq<char>, n: int)
    requires
        0 <= n <= s.len(),
        all_digits(s),
        digits_value(s.subrange(0, n)) >= 0,
    ensures
        digits_value(s) >= digits_value(s.subrange(0, n)),
    decreases s.len() - n,
{
    if n < s.len() {
        let p = s.subrange(0, n);
        let q = s.subrange(0, n + 1);
        assert(q.drop_last() =~= p);
        assert(is_digit_char(q.last()));
        assert(digits_value(q) == digits_value(p) * 10 + (q.last() as int - 48));
        assert(digits_value(q) >= digits_value(p));
        lemma_digits_value_prefix(s, n + 1);
        assert(s.subrange(0, s.len() as int) =~= s);
    } else {
        assert(s.subrange(0, s.len() as int) =~= s);
    }
}

/// The value of an all-digit sequence is never negative.
pub proof fn lemma_digits_value_nonneg(s: Seq<char>)
    requires
        all_digits(s),
    ensures
        digits_value(s) >= 0,
    decreases s.len(),
{
    if s.len() > 0 {
        assert(all_digits(s.drop_last()));
        lemma_digits_value_nonneg(s.drop_last());
    }
}

/// The canonical digits of `x` denote `x`, are all digits, and never start
/// with a zero unless `x` is zero.
pub proof fn lemma_dec_seq_value(x: nat)
    ensures
        all_digits(dec_seq(x)),
        digits_value(dec_seq(x)) == x,
        dec_seq(x).len() >= 1,
        dec_seq(x)[0] != '+',
    decreases x,
{
    if x < 10 {
        let s = dec_seq(x);
        assert(s =~= seq![digit_char(x as int)]);
        assert(s.len() == 1);
        assert(s.drop_last() =~= Seq::<char>::empty());
        assert(digits_value(Seq::<char>::empty()) == 0);
        assert(s.last() == digit_char(x as int));
        assert(digit_char(x as int) as int == 48 + x);
        assert(digits_value(s) == digit_char(x as int) as int - 48);
    } else {
        lemma_dec_seq_value((x / 10) as nat);
        let p = dec_seq((x / 10) as nat);
        let s = dec_seq(x);
        assert(s == p.push(digit_char((x % 10) as int)));
        assert(s.drop_last() =~= p);
        assert(s.last() == digit_char((x % 10) as int));
        assert(digits_value(s) == digits_value(p) * 10 + (x % 10));
        assert(s[0] == p[0]);
        assert forall|i: int| 0 <= i < s.len() implies is_digit_char(s[i]) by {
            if i < p.len() {
                assert(s[i] == p[i]);
            }
        }
    }
}

/// Gather the characters of a string slice; the result views to the same
/// character sequence.
pub fn chars_of_str(s: &str) -> (r: Vec<char>)
    ensures
        r@ == s@,
{
    let mut v: Vec<char> = Vec::new();
    for c in it: s.chars()
        invariant
            it.seq() == s@,
            v@ == it.seq().take(it.index() as int),
    {
        v.push(c);
    }
    assert(v@ =~= s@);
    v
}

/// Relies on `core::iter::Iterator::collect` for `String`: collecting the
/// characters of `v` yields the string with exactly those characters.
#[verifier::external_body]
pub fn string_of_chars(v: &Vec<char>) -> (r: String)
    ensures
        r@ == v@,
{
    v.iter().collect()
}

/// The index of the first occurrence of `c` in `v`, if any.
pub fn index_of_char(v: &Vec<char>, c: char) -> (r: Option<usize>)
    ensures
        match r {
            Some(i) => i < v@.len() && v@[i as int] == c && forall|j: int|
                0 <= j < i ==> v@[j] != c,
            None => !contains_char(v@, c),
        },
{
    let mut i: usize = 0;
    while i < v.len()
        invariant
            i <= v@.len(),
            forall|j: int| 0 <= j < i ==> v@[j] != c,
        decreases v@.len() - i,
    {
        if v[i] == c {
            return Some(i);
        }
        i = i + 1;
    }
    None
}

/// Whether `c` occurs in `v`.
pub fn contains_char_exec(v: &Vec<char>, c: char) -> (r: bool)
    ensures
        r == contains_char(v@, c),
{
    match index_of_char(v, c) {
        Some(_) => true,
        None => false,
    }
}

/// Copy of the half-open index range `[from, to)` of `v`.
pub fn subvec(v: &Vec<char>, from: usize, to: usize) -> (r: Vec<char>)
    requires
        from <= to <= v@.len(),
    ensures
        r@ == v@.subrange(from as int, to as int),
{
    let mut r: Vec<char> = Vec::new();
    let mut i: usize = from;
    while i < to
        invariant
            from <= i <= to <= v@.len(),
            r@ == v@.subrange(from as int, i as int),
        decreases to - i,
    {
        r.push(v[i]);
        assert(r@ =~= v@.subrange(from as int, i + 1 as int));
        i = i + 1;
    }
    r
}

/// Parse a `u64` from characters, with exactly the acceptance of
/// `u64::from_str`: an optional leading `+`, then one or more digits, and a
/// value no greater than `u64::MAX`.
pub fn parse_u64_chars(v: &Vec<char>) -> (r: Option<u64>)
    ensures
        r is Some <==> parses_as_u64(v@),
        r is Some ==> r->0 == u64_value_of(v@),
{
    let ghost body = numeral_body(v@);
    let start: usize = if v.len() > 0 && v[0] == '+' {
        1
    } else {
        0
    };
    assert(body =~= v@.subrange(start as int, v@.len() as int));
    if v.len() == start {
        return None;
    }
    let mut x: u64 = 0;
    let mut i: usize = start;
    while i < v.len()
        invariant
            start <= i <= v@.len(),
            v@.len() > start,
            body == numeral_body(v@),
            body =~= v@.subrange(start as int, v@.len() as int),
            all_digits(body.take(i - start)),
            x == digits_value(body.take(i - start)),
        decreases v@.len() - i,
    {
        let d: u64 = match char_digit_value(v[i]) {
            Some(d) => d,
            None => {
                proof {
                    assert(0 <= i - start < body.len());
                    assert(body[i - start] == v@[i as int]);
                    assert(!all_digits(body));
                }
                return None;
            },
        };
        assert(body.take(i + 1 - start).drop_last() =~= body.take(i - start));
        assert(body.take(i + 1 - start).last() == v@[i as int]);
        if x > (u64::MAX - d) / 10 {
            proof {
                let p = body.take(i + 1 - start);
                assert(digits_value(p) == x * 10 + d);
                let m = (u64::MAX - d) as int;
                vstd::arithmetic::div_mod::lemma_fundamental_div_mod(m, 10);
                assert(0 <= m % 10 < 10) by {
                    vstd::arithmetic::div_mod::lemma_mod_bound(m, 10);
                }
                assert(x * 10 >= (m / 10 + 1) * 10);
                assert(digits_value(p) > u64::MAX);
                assert(all_digits(body) ==> digits_value(body) > u64::MAX) by {
                    if all_digits(body) {
                        lemma_digits_value_prefix(body, i + 1 - start);
                        assert(body.subrange(0, i + 1 - start) =~= p);
                    }
                }
                assert(!parses_as_u64(v@));
            }
            return None;
        }
        x = x * 10 + d;
        i = i + 1;
    }
    assert(body.take(v@.len() - start) =~= body);
    Some(x)
}

/// The canonical decimal digits of `x`, as characters.
pub fn u64_digits(x: u64) -> (r: Vec<char>)
    ensures
        r@ == dec_seq(x as nat),
{
    let mut v: Vec<char> = Vec::new();
    let mut y: u64 = x;
    if y == 0 {
        v.push('0');
        assert(v@ =~= dec_seq(0));
        return v;
    }
    while y > 0
        invariant
            y > 0 ==> dec_seq(x as nat) == dec_seq(y as nat) + v@,
            y == 0 ==> dec_seq(x as nat) == v@,
            x > 0,
        decreases y,
    {
        let d: u64 = y % 10;
        let c: char = digit_to_char(d);
        v.insert(0, c);
        proof {
            if y >= 10 {
                assert(dec_seq((y / 10) as nat) + v@ =~= dec_seq(y as nat) + v@.drop_first());
            } else {
                assert(dec_seq(y as nat) =~= seq![c]);
                assert(v@ =~= dec_seq(y as nat) + v@.drop_first());
            }
        }
        y = y / 10;
    }
    v
}

/// Append the decimal digits of `x` to `out`.
pub fn push_u64(out: &mut Vec<char>, x: u64)
    ensures
        final(out)@ == old(out)@ + dec_seq(x as nat),
{
    let mut d = u64_digits(x);
    let mut i: usize = 0;
    while i < d.len()
        invariant
            i <= d@.len(),
            d@ == dec_seq(x as nat),
            out@ == old(out)@ + d@.take(i as int),
        decreases d@.len() - i,
    {
        out.push(d[i]);
        assert(out@ =~= old(out)@ + d@.take(i + 1));
        i = i + 1;
    }
    assert(out@ =~= old(out)@ + d@);
}

} // verus!
