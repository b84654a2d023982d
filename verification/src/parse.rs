//! Parsing of the challenge header value
//! `"1:<difficulty-decimal>:<timestamp>:<token>"`: surrounding whitespace
//! is trimmed, the value is split at its first three colons, and the
//! parts are checked.  Any malformed value yields `None`.

use vstd::prelude::*;

verus! {

/// Wire length of the token field of a challenge header, in characters.
pub const TOKEN_FIELD_LEN: usize = 64;

/// A whitespace character: one with the Unicode `White_Space` property.
pub open spec fn is_space(c: char) -> bool {
    let u = c as u32;
    ||| (0x09 <= u && u <= 0x0d)
    ||| u == 0x20
    ||| u == 0x85
    ||| u == 0xa0
    ||| u == 0x1680
    ||| (0x2000 <= u && u <= 0x200a)
    ||| u == 0x2028
    ||| u == 0x2029
    ||| u == 0x202f
    ||| u == 0x205f
    ||| u == 0x3000
}

/// An ASCII decimal digit.
pub open spec fn is_digit(c: char) -> bool {
    0x30 <= c as u32 && c as u32 <= 0x39
}

/// The numeric value of a digit character.
pub open spec fn digit_val(c: char) -> int
    recommends
        is_digit(c),
{
    c as u32 - 0x30
}

/// The first index at or after `i` holding a non-whitespace character,
/// or the length of `s` if there is none.
pub open spec fn first_non_space(s: Seq<char>, i: int) -> int
    recommends
        0 <= i <= s.len(),
    decreases s.len() - i,
{
    if i < 0 || i >= s.len() {
        s.len() as int
    } else if !is_space(s[i]) {
        i
    } else {
        first_non_space(s, i + 1)
    }
}

/// The end (exclusive) of the last non-whitespace character strictly
/// before `j`, or 0 if there is none.
pub open spec fn last_non_space_end(s: Seq<char>, j: int) -> int
    recommends
        0 <= j <= s.len(),
    decreases j,
{
    if j <= 0 {
        0
    } else if !is_space(s[j - 1]) {
        j
    } else {
        last_non_space_end(s, j - 1)
    }
}

/// The first index in `[i, hi)` holding `c`, if any.
pub open spec fn find_before(s: Seq<char>, c: char, i: int, hi: int) -> Option<int>
    recommends
        0 <= i,
        hi <= s.len(),
    decreases hi - i,
{
    if i >= hi {
        None
    } else if s[i] == c {
        Some(i)
    } else {
        find_before(s, c, i + 1, hi)
    }
}

/// The number a digit string denotes in decimal.
pub open spec fn dec_value(s: Seq<char>) -> int
    recommends
        forall|i: int| 0 <= i < s.len() ==> is_digit(s[i]),
    decreases s.len(),
{
    if s.len() == 0 {
        0
    } else {
        dec_value(s.drop_last()) * 10 + digit_val(s.last())
    }
}

/// Every character of `s` is a decimal digit.
pub open spec fn all_digits(s: Seq<char>) -> bool {
    forall|i: int| 0 <= i < s.len() ==> is_digit(s[i])
}

/// What `str::parse::<u8>` accepts: an optional leading `+`, then at
/// least one decimal digit, denoting a value of at most 255.
pub open spec fn parse_u8_spec(s: Seq<char>) -> Option<u8> {
    let digits = if s.len() > 0 && s[0] == '+' {
        s.drop_first()
    } else {
        s
    };
    if digits.len() > 0 && all_digits(digits) && dec_value(digits) <= 255 {
        Some(dec_value(digits) as u8)
    } else {
        None
    }
}

/// Parse the window `[lo, hi)` of a header value: split at the first
/// three colons into version, difficulty, timestamp and token fields;
/// the version must be the single character `1`, the difficulty a
/// decimal byte, and the token (the remainder, a fourth colon included)
/// exactly 64 characters; the timestamp is ignored.
pub open spec fn parse_window(s: Seq<char>, lo: int, hi: int) -> Option<(Seq<char>, u8)> {
    match find_before(s, ':', lo, hi) {
        Option::None => None,
        Option::Some(p1) => match find_before(s, ':', p1 + 1, hi) {
            Option::None => None,
            Option::Some(p2) => match find_before(s, ':', p2 + 1, hi) {
                Option::None => None,
                Option::Some(p3) => {
                    let easiness = parse_u8_spec(s.subrange(p1 + 1, p2));
                    if p1 == lo + 1 && s[lo] == '1' && easiness is Some && hi - (p3 + 1)
                        == TOKEN_FIELD_LEN {
                        Some((s.subrange(p3 + 1, hi), easiness->0))
                    } else {
                        None
                    }
                },
            },
        },
    }
}

/// Parse a challenge header value: trim surrounding whitespace, then
/// parse what is left.
pub open spec fn parse_spec(s: Seq<char>) -> Option<(Seq<char>, u8)> {
    parse_window(s, first_non_space(s, 0), last_non_space_end(s, s.len() as int))
}

/// Whether `c` has the Unicode `White_Space` property.
pub(crate) fn char_is_space(c: char) -> (b: bool)
    ensures
        b == is_space(c),
{
    let u = c as u32;
    (0x09 <= u && u <= 0x0d) || u == 0x20 || u == 0x85 || u == 0xa0 || u == 0x1680 || (0x2000 <= u
        && u <= 0x200a) || u == 0x2028 || u == 0x2029 || u == 0x202f || u == 0x205f || u == 0x3000
}

/// Find the first colon in `[from, hi)` of `s`.
fn find_colon(s: &str, from: usize, hi: usize) -> (r: Option<usize>)
    requires
        from <= hi <= s@.len(),
    ensures
        r is Some <==> find_before(s@, ':', from as int, hi as int) is Some,
        r matches Some(p) ==> find_before(s@, ':', from as int, hi as int) == Some(p as int) && from
            <= p < hi,
{
    let mut i = from;
    while i < hi
        invariant
            from <= i <= hi <= s@.len(),
            find_before(s@, ':', from as int, hi as int) == find_before(
                s@,
                ':',
                i as int,
                hi as int,
            ),
        decreases hi - i,
    {
        if s.get_char(i) == ':' {
            return Some(i);
        }
        i = i + 1;
    }
    None
}

/// `dec_value` of a digit string is nonnegative.
proof fn lemma_dec_value_nonneg(s: Seq<char>)
    requires
        all_digits(s),
    ensures
        dec_value(s) >= 0,
    decreases s.len(),
{
    if s.len() > 0 {
        assert(all_digits(s.drop_last()));
        lemma_dec_value_nonneg(s.drop_last());
    }
}

/// A prefix of a digit string never denotes more than the whole string.
proof fn lemma_dec_value_prefix(s: Seq<char>, i: int)
    requires
        all_digits(s),
        0 <= i <= s.len(),
    ensures
        dec_value(s.take(i)) <= dec_value(s),
    decreases s.len() - i,
{
    if i == s.len() {
        assert(s.take(i) =~= s);
    } else {
        lemma_dec_value_prefix(s, i + 1);
        let t = s.take(i + 1);
        assert(t.drop_last() =~= s.take(i));
        assert(all_digits(s.take(i))) by {
            assert(forall|k: int| 0 <= k < i ==> s.take(i)[k] == s[k]);
        }
        lemma_dec_value_nonneg(s.take(i));
        assert(dec_value(t) == dec_value(s.take(i)) * 10 + digit_val(s[i]));
        assert(dec_value(s.take(i)) <= dec_value(t));
    }
}

/// Parse the window `[from, to)` of `s` as `str::parse::<u8>` would.
#[verifier::loop_isolation(false)]
fn parse_u8_range(s: &str, from: usize, to: usize) -> (r: Option<u8>)
    requires
        from <= to <= s@.len(),
    ensures
        r is Some <==> parse_u8_spec(s@.subrange(from as int, to as int)) is Some,
        r matches Some(v) ==> parse_u8_spec(s@.subrange(from as int, to as int)) == Some(v),
{
    let ghost w = s@.subrange(from as int, to as int);
    if from == to {
        return None;
    }
    let first = s.get_char(from);
    let start: usize = if first == '+' {
        from + 1
    } else {
        from
    };
    let ghost digits = if w.len() > 0 && w[0] == '+' {
        w.drop_first()
    } else {
        w
    };
    proof {
        assert(w[0] == s@[from as int]);
        assert(digits =~= s@.subrange(start as int, to as int));
    }
    if start == to {
        return None;
    }
    let mut value: u32 = 0;
    let mut idx = start;
    while idx < to
        invariant
            from <= start <= idx <= to <= s@.len(),
            digits =~= s@.subrange(start as int, to as int),
            forall|p: int| start <= p < idx ==> is_digit(s@[p]),
            value <= 255,
            value == dec_value(s@.subrange(start as int, idx as int)),
        decreases to - idx,
    {
        let c = s.get_char(idx);
        let u = c as u32;
        if !(0x30 <= u && u <= 0x39) {
            proof {
                assert(digits[idx - start] == s@[idx as int]);
                assert(!is_digit(digits[idx - start]));
                assert(!all_digits(digits));
            }
            return None;
        }
        let newv = value * 10 + (u - 0x30);
        proof {
            let prefix = s@.subrange(start as int, idx as int + 1);
            assert(prefix.drop_last() =~= s@.subrange(start as int, idx as int));
            assert(prefix.last() == s@[idx as int]);
            assert(dec_value(prefix) == newv);
        }
        if newv > 255 {
            proof {
                if parse_u8_spec(w) is Some {
                    assert(all_digits(digits));
                    let prefix = s@.subrange(start as int, idx as int + 1);
                    assert(prefix =~= digits.take(idx - start + 1));
                    lemma_dec_value_prefix(digits, idx - start + 1);
                    assert(dec_value(digits) >= dec_value(prefix));
                    assert(false);
                }
            }
            return None;
        }
        value = newv;
        idx = idx + 1;
    }
    proof {
        assert(all_digits(digits)) by {
            assert(forall|i: int| 0 <= i < digits.len() ==> digits[i] == s@[start + i]);
        }
        assert(dec_value(digits) == value);
        assert(parse_u8_spec(w) == Some(value as u8));
    }
    Some(value as u8)
}

/// Parse a challenge header value into its wire-encoded token and its
/// difficulty byte.  Returns `None` on any structural mismatch: wrong
/// version, malformed difficulty, missing fields or a token field whose
/// length is not exactly 64 characters.
pub fn parse_hashcash_header(raw: &str) -> (r: Option<(String, u8)>)
    ensures
        r is Some <==> parse_spec(raw@) is Some,
        r matches Some(p) ==> parse_spec(raw@) == Some((p.0@, p.1)),
{
    let n = raw.unicode_len();
    let mut lo: usize = 0;
    while lo < n && char_is_space(raw.get_char(lo))
        invariant
            lo <= n == raw@.len(),
            first_non_space(raw@, 0) == first_non_space(raw@, lo as int),
        decreases n - lo,
    {
        lo = lo + 1;
    }
    if lo == n {
        proof {
            lemma_last_end_bounds(raw@, n as int);
        }
        return None;
    }
    let mut hi: usize = n;
    while hi > lo && char_is_space(raw.get_char(hi - 1))
        invariant
            lo < hi <= n == raw@.len(),
            !is_space(raw@[lo as int]),
            last_non_space_end(raw@, n as int) == last_non_space_end(raw@, hi as int),
        decreases hi,
    {
        hi = hi - 1;
    }
    proof {
        assert(first_non_space(raw@, 0) == lo);
        assert(last_non_space_end(raw@, n as int) == hi);
    }

    let p1 = match find_colon(raw, lo, hi) {
        Some(p) => p,
        None => {
            return None;
        },
    };
    let p2 = match find_colon(raw, p1 + 1, hi) {
        Some(p) => p,
        None => {
            return None;
        },
    };
    let p3 = match find_colon(raw, p2 + 1, hi) {
        Some(p) => p,
        None => {
            return None;
        },
    };
    let easiness = match parse_u8_range(raw, p1 + 1, p2) {
        Some(v) => v,
        None => {
            return None;
        },
    };
    if !(p1 == lo + 1 && raw.get_char(lo) == '1') {
        return None;
    }
    if hi - (p3 + 1) != TOKEN_FIELD_LEN {
        return None;
    }
    let token = raw.substring_char(p3 + 1, hi).to_owned();
    Some((token, easiness))
}

/// The digit character for a value below ten.
pub open spec fn digit_char(k: u8) -> char
    recommends
        k < 10,
{
    ((0x30 + k) as u8) as char
}

/// The canonical decimal rendering of a byte: one to three digits, no
/// sign and no leading zero.
pub open spec fn dec_of_u8(d: u8) -> Seq<char> {
    if d < 10 {
        seq![digit_char(d)]
    } else if d < 100 {
        seq![digit_char(d / 10), digit_char(d % 10)]
    } else {
        seq![digit_char(d / 100), digit_char((d / 10) % 10), digit_char(d % 10)]
    }
}

/// A serialized challenge header: version 1, the difficulty in decimal,
/// a timestamp and a token field, colon-separated.
pub open spec fn serialize_spec(d: u8, ts: Seq<char>, tok: Seq<char>) -> Seq<char> {
    seq!['1', ':'] + dec_of_u8(d) + seq![':'] + ts + seq![':'] + tok
}

/// Digit characters are digits with the value they denote, and are
/// neither a sign, a colon nor whitespace.
proof fn lemma_digit_char(k: u8)
    requires
        k < 10,
    ensures
        is_digit(digit_char(k)),
        digit_val(digit_char(k)) == k,
        digit_char(k) != '+',
        digit_char(k) != ':',
        !is_space(digit_char(k)),
{
}

/// The canonical decimal rendering of a byte parses back to that byte.
proof fn lemma_dec_of_u8(d: u8)
    ensures
        1 <= dec_of_u8(d).len() <= 3,
        all_digits(dec_of_u8(d)),
        dec_value(dec_of_u8(d)) == d,
        parse_u8_spec(dec_of_u8(d)) == Some(d),
{
    let s = dec_of_u8(d);
    if d < 10 {
        lemma_digit_char(d);
        assert(s.drop_last() =~= Seq::<char>::empty());
        assert(dec_value(Seq::<char>::empty()) == 0);
        assert(dec_value(s) == digit_val(digit_char(d)));
    } else if d < 100 {
        vstd::arithmetic::div_mod::lemma_fundamental_div_mod(d as int, 10);
        lemma_digit_char(d / 10);
        lemma_digit_char(d % 10);
        let two = seq![digit_char(d / 10), digit_char(d % 10)];
        assert(two.drop_last() =~= seq![digit_char(d / 10)]);
        assert(seq![digit_char(d / 10)].drop_last() =~= Seq::<char>::empty());
        assert(dec_value(Seq::<char>::empty()) == 0);
        assert(dec_value(seq![digit_char(d / 10)]) == digit_val(digit_char(d / 10)));
        assert(dec_value(two) == digit_val(digit_char(d / 10)) * 10 + digit_val(
            digit_char(d % 10),
        ));
    } else {
        vstd::arithmetic::div_mod::lemma_fundamental_div_mod(d as int, 10);
        vstd::arithmetic::div_mod::lemma_fundamental_div_mod(d as int / 10, 10);
        vstd::arithmetic::div_mod::lemma_div_denominator(d as int, 10, 10);
        lemma_digit_char(d / 100);
        lemma_digit_char((d / 10) % 10);
        lemma_digit_char(d % 10);
        let three = seq![digit_char(d / 100), digit_char((d / 10) % 10), digit_char(d % 10)];
        let two = seq![digit_char(d / 100), digit_char((d / 10) % 10)];
        assert(three.drop_last() =~= two);
        assert(two.drop_last() =~= seq![digit_char(d / 100)]);
        assert(seq![digit_char(d / 100)].drop_last() =~= Seq::<char>::empty());
        assert(dec_value(Seq::<char>::empty()) == 0);
        assert(dec_value(seq![digit_char(d / 100)]) == digit_val(digit_char(d / 100)));
        assert(dec_value(two) == digit_val(digit_char(d / 100)) * 10 + digit_val(
            digit_char((d / 10) % 10),
        ));
        assert(dec_value(three) == (digit_val(digit_char(d / 100)) * 10 + digit_val(
            digit_char((d / 10) % 10),
        )) * 10 + digit_val(digit_char(d % 10)));
        assert(d as int == 10 * (d as int / 10) + (d as int % 10));
        assert(d as int / 10 == 10 * (d as int / 100) + (d as int / 10 % 10));
    }
    assert(s[0] != '+');
    assert(s.len() > 0 && all_digits(s) && dec_value(s) <= 255);
}

/// `find_before` passes over a stretch that does not hold `c`.
proof fn lemma_find_skip(s: Seq<char>, c: char, i: int, j: int, hi: int)
    requires
        0 <= i <= j <= hi <= s.len(),
        forall|k: int| i <= k < j ==> s[k] != c,
    ensures
        find_before(s, c, i, hi) == find_before(s, c, j, hi),
    decreases j - i,
{
    if i < j {
        lemma_find_skip(s, c, i + 1, j, hi);
    }
}

/// `find_before` finds the first occurrence of `c`.
proof fn lemma_find_at(s: Seq<char>, c: char, i: int, p: int, hi: int)
    requires
        0 <= i <= p < hi <= s.len(),
        forall|k: int| i <= k < p ==> s[k] != c,
        s[p] == c,
    ensures
        find_before(s, c, i, hi) == Some(p),
{
    lemma_find_skip(s, c, i, p, hi);
}

/// Parsing inverts serialization: a header serialized from a difficulty
/// byte, a colon-free timestamp and a 64-character token field parses
/// back to that token field and difficulty.  A token field whose last
/// character is whitespace is left out: trimming would shorten it.
pub proof fn lemma_parse_serialize(d: u8, ts: Seq<char>, tok: Seq<char>)
    requires
        forall|i: int| 0 <= i < ts.len() ==> ts[i] != ':',
        tok.len() == TOKEN_FIELD_LEN,
        !is_space(tok[TOKEN_FIELD_LEN - 1]),
    ensures
        parse_spec(serialize_spec(d, ts, tok)) == Some((tok, d)),
{
    let s = serialize_spec(d, ts, tok);
    let dec = dec_of_u8(d);
    let dl = dec.len() as int;
    let tsl = ts.len() as int;
    let n = s.len() as int;
    lemma_dec_of_u8(d);
    assert(n == 4 + dl + tsl + TOKEN_FIELD_LEN);

    assert(s[0] == '1');
    assert(s[1] == ':');
    assert forall|k: int| 2 <= k < 2 + dl implies s[k] == dec[k - 2] && s[k] != ':' by {
        lemma_digit_char_ne_colon(dec[k - 2]);
    }
    assert(s[2 + dl] == ':');
    assert forall|k: int| 3 + dl <= k < 3 + dl + tsl implies s[k] != ':' by {
        assert(s[k] == ts[k - 3 - dl]);
    }
    assert(s[3 + dl + tsl] == ':');
    assert(s[n - 1] == tok[TOKEN_FIELD_LEN - 1]);

    assert(first_non_space(s, 0) == 0) by {
        assert(!is_space('1'));
    }
    assert(last_non_space_end(s, n) == n);

    lemma_find_at(s, ':', 0, 1, n);
    lemma_find_at(s, ':', 2, 2 + dl, n);
    lemma_find_at(s, ':', 3 + dl, 3 + dl + tsl, n);

    assert(s.subrange(2, 2 + dl) =~= dec);
    assert(s.subrange(3 + dl + tsl + 1, n) =~= tok);
    assert(parse_window(s, 0, n) == Some((tok, d)));
}

/// A digit character is not a colon.
proof fn lemma_digit_char_ne_colon(c: char)
    requires
        is_digit(c),
    ensures
        c != ':',
{
}

/// `last_non_space_end` stays within `[0, j]`.
proof fn lemma_last_end_bounds(s: Seq<char>, j: int)
    requires
        0 <= j,
    ensures
        0 <= last_non_space_end(s, j) <= j,
    decreases j,
{
    if j > 0 && is_space(s[j - 1]) {
        lemma_last_end_bounds(s, j - 1);
    }
}

} // verus!
