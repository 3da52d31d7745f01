//! Small verified text utilities: decimal digits, lexicographic order of
//! character sequences, ASCII case-insensitive comparison and the reading of
//! unsigned decimal numbers.

use vstd::prelude::*;

verus! {

/// The ASCII character of the decimal digit `d` (for `0 <= d < 10`).
pub open spec fn digit_char(d: int) -> char {
    seq!['0', '1', '2', '3', '4', '5', '6', '7', '8', '9'][d]
}

/// `n` written with exactly two decimal digits, zero-padded (for `n < 100`).
pub open spec fn two_digits(n: int) -> Seq<char> {
    seq![digit_char(n / 10), digit_char(n % 10)]
}

/// `n` written in decimal without leading zeros.
pub open spec fn decimal(n: nat) -> Seq<char>
    decreases n,
{
    if n < 10 {
        seq![digit_char(n as int)]
    } else {
        decimal(n / 10) + seq![digit_char((n % 10) as int)]
    }
}

/// The text of one decimal digit.
pub fn digit_text(d: u32) -> (r: &'static str)
    requires
        d < 10,
    ensures
        r@ == seq![digit_char(d as int)],
{
    if d == 0 {
        proof { reveal_strlit("0"); }
        "0"
    } else if d == 1 {
        proof { reveal_strlit("1"); }
        "1"
    } else if d == 2 {
        proof { reveal_strlit("2"); }
        "2"
    } else if d == 3 {
        proof { reveal_strlit("3"); }
        "3"
    } else if d == 4 {
        proof { reveal_strlit("4"); }
        "4"
    } else if d == 5 {
        proof { reveal_strlit("5"); }
        "5"
    } else if d == 6 {
        proof { reveal_strlit("6"); }
        "6"
    } else if d == 7 {
        proof { reveal_strlit("7"); }
        "7"
    } else if d == 8 {
        proof { reveal_strlit("8"); }
        "8"
    } else {
        proof { reveal_strlit("9"); }
        "9"
    }
}

/// Appends `n` as two zero-padded decimal digits (the `{:02}` format).
pub fn push_two_digits(s: &mut String, n: u32)
    requires
        n < 100,
    ensures
        final(s)@ == old(s)@ + two_digits(n as int),
{
    s.append(digit_text(n / 10));
    s.append(digit_text(n % 10));
}

/// Writes `n` in decimal (the `{}` format of an unsigned integer).
pub fn decimal_text(n: u32) -> (r: String)
    ensures
        r@ == decimal(n as nat),
    decreases n,
{
    if n < 10 {
        let mut s = String::new();
        s.append(digit_text(n));
        s
    } else {
        let mut s = decimal_text(n / 10);
        s.append(digit_text(n % 10));
        s
    }
}


/// Strict lexicographic order of character sequences, characters compared
/// by code point. On UTF-8 text this is the byte-wise order in which `str`
/// and `String` compare.
pub open spec fn chars_lt(a: Seq<char>, b: Seq<char>) -> bool
    decreases a.len(),
{
    if b.len() == 0 {
        false
    } else if a.len() == 0 {
        true
    } else if a[0] != b[0] {
        a[0] < b[0]
    } else {
        chars_lt(a.drop_first(), b.drop_first())
    }
}

/// Non-strict lexicographic order (`a <= b` on strings).
pub open spec fn chars_le(a: Seq<char>, b: Seq<char>) -> bool {
    chars_lt(a, b) || a == b
}

/// The lexicographic order is irreflexive.
pub proof fn lemma_chars_lt_irreflexive(a: Seq<char>)
    ensures
        !chars_lt(a, a),
    decreases a.len(),
{
    if a.len() > 0 {
        lemma_chars_lt_irreflexive(a.drop_first());
    }
}

/// The lexicographic order is transitive.
pub proof fn lemma_chars_lt_transitive(a: Seq<char>, b: Seq<char>, c: Seq<char>)
    requires
        chars_lt(a, b),
        chars_lt(b, c),
    ensures
        chars_lt(a, c),
    decreases a.len(),
{
    if a.len() > 0 && b.len() > 0 && c.len() > 0 && a[0] == b[0] && b[0] == c[0] {
        lemma_chars_lt_transitive(a.drop_first(), b.drop_first(), c.drop_first());
    }
}

/// Any two distinct sequences are ordered one way or the other, and never both.
pub proof fn lemma_chars_lt_total(a: Seq<char>, b: Seq<char>)
    ensures
        a != b ==> (chars_lt(a, b) || chars_lt(b, a)),
        !(chars_lt(a, b) && chars_lt(b, a)),
    decreases a.len(),
{
    if a.len() > 0 && b.len() > 0 {
        if a[0] == b[0] {
            lemma_chars_lt_total(a.drop_first(), b.drop_first());
            if a != b {
                assert(a.drop_first() != b.drop_first()) by {
                    if a.drop_first() == b.drop_first() {
                        assert(a =~= seq![a[0]] + a.drop_first());
                        assert(b =~= seq![b[0]] + b.drop_first());
                    }
                }
            }
        } else {
        }
    } else if a.len() == 0 && b.len() == 0 {
        assert(a =~= b);
    }
}

/// Whether `a` sorts strictly before `b`, as `str` comparison does.
pub fn str_less(a: &str, b: &str) -> (r: bool)
    ensures
        r == chars_lt(a@, b@),
{
    let la = a.unicode_len();
    let lb = b.unicode_len();
    let mut i: usize = 0;
    assert(a@.skip(0) =~= a@);
    assert(b@.skip(0) =~= b@);
    while i < la && i < lb
        invariant
            la == a@.len(),
            lb == b@.len(),
            i <= la,
            i <= lb,
            chars_lt(a@, b@) == chars_lt(a@.skip(i as int), b@.skip(i as int)),
        decreases la - i,
    {
        let ca = a.get_char(i);
        let cb = b.get_char(i);
        assert(a@.skip(i as int)[0] == ca);
        assert(b@.skip(i as int)[0] == cb);
        if ca != cb {
            return ca < cb;
        }
        assert(a@.skip(i as int).drop_first() =~= a@.skip(i + 1));
        assert(b@.skip(i as int).drop_first() =~= b@.skip(i + 1));
        i = i + 1;
    }
    i < lb
}

/// Whether two strings are equal.
pub fn str_eq(a: &str, b: &str) -> (r: bool)
    ensures
        r == (a@ == b@),
{
    let la = a.unicode_len();
    let lb = b.unicode_len();
    if la != lb {
        return false;
    }
    let mut i: usize = 0;
    while i < la
        invariant
            la == a@.len(),
            lb == b@.len(),
            la == lb,
            i <= la,
            forall|j: int| 0 <= j < i ==> a@[j] == b@[j],
        decreases la - i,
    {
        if a.get_char(i) != b.get_char(i) {
            return false;
        }
        i = i + 1;
    }
    assert(a@ =~= b@);
    true
}

/// ASCII lowercase of one character; other characters are unchanged.
pub open spec fn ascii_lower(c: char) -> char {
    if 'A' <= c && c <= 'Z' {
        ((c as u32) + 32) as char
    } else {
        c
    }
}

/// Equality up to ASCII case, as `str::eq_ignore_ascii_case`.
pub open spec fn eq_ignore_ascii_case_spec(a: Seq<char>, b: Seq<char>) -> bool {
    &&& a.len() == b.len()
    &&& forall|i: int| 0 <= i < a.len() ==> ascii_lower(#[trigger] a[i]) == ascii_lower(b[i])
}

/// Equality up to ASCII case of two strings.
pub fn eq_ignore_ascii_case(a: &str, b: &str) -> (r: bool)
    ensures
        r == eq_ignore_ascii_case_spec(a@, b@),
{
    let la = a.unicode_len();
    let lb = b.unicode_len();
    if la != lb {
        return false;
    }
    let mut i: usize = 0;
    while i < la
        invariant
            la == a@.len(),
            lb == b@.len(),
            la == lb,
            i <= la,
            forall|j: int| 0 <= j < i ==> ascii_lower(#[trigger] a@[j]) == ascii_lower(b@[j]),
        decreases la - i,
    {
        let ca = a.get_char(i);
        let cb = b.get_char(i);
        let la_c = if 'A' <= ca && ca <= 'Z' { ((ca as u32) + 32) as u8 as char } else { ca };
        let lb_c = if 'A' <= cb && cb <= 'Z' { ((cb as u32) + 32) as u8 as char } else { cb };
        if la_c != lb_c {
            return false;
        }
        i = i + 1;
    }
    true
}


/// The value of a decimal digit character.
pub open spec fn digit_value(c: char) -> int {
    (c as int) - ('0' as int)
}

/// Whether every character is an ASCII digit.
pub open spec fn all_digits(s: Seq<char>) -> bool {
    forall|i: int| 0 <= i < s.len() ==> '0' <= #[trigger] s[i] <= '9'
}

/// The number written by a string of decimal digits.
pub open spec fn digits_value(s: Seq<char>) -> nat
    decreases s.len(),
{
    if s.len() == 0 {
        0
    } else {
        (digits_value(s.drop_last()) * 10 + digit_value(s.last())) as nat
    }
}

/// What `str::parse::<u32>` reads: an optional `+` followed by one or more
/// decimal digits whose value fits in a `u32`.
pub open spec fn u32_text(s: Seq<char>) -> Option<u32> {
    let d = if s.len() > 0 && s[0] == '+' { s.drop_first() } else { s };
    if d.len() > 0 && all_digits(d) && digits_value(d) <= u32::MAX {
        Some(digits_value(d) as u32)
    } else {
        None
    }
}

/// A string of digits writes a number no smaller than any prefix of it does.
proof fn lemma_digits_value_prefix(s: Seq<char>, i: int)
    requires
        0 <= i <= s.len(),
        all_digits(s),
    ensures
        digits_value(s.take(i)) <= digits_value(s),
    decreases s.len() - i,
{
    if i < s.len() {
        lemma_digits_value_prefix(s, i + 1);
        assert(s.take(i + 1).drop_last() =~= s.take(i));
        assert('0' <= s[i] <= '9');
    } else {
        assert(s.take(i) =~= s);
    }
}

/// Parses a `u32` as `str::parse::<u32>` does.
pub fn parse_u32(s: &str) -> (r: Option<u32>)
    ensures
        r == u32_text(s@),
{
    let n = s.unicode_len();
    let mut start: usize = 0;
    if n > 0 && s.get_char(0) == '+' {
        start = 1;
    }
    let ghost d = if s@.len() > 0 && s@[0] == '+' { s@.drop_first() } else { s@ };
    if start == n {
        return None;
    }
    let mut acc: u64 = 0;
    let mut i: usize = start;
    while i < n
        invariant
            n == s@.len(),
            start <= i <= n,
            start < n,
            d == s@.skip(start as int),
            d == (if s@.len() > 0 && s@[0] == '+' { s@.drop_first() } else { s@ }),
            all_digits(d.take(i - start)),
            acc == digits_value(d.take(i - start)),
            acc <= u32::MAX,
        decreases n - i,
    {
        let c = s.get_char(i);
        let ghost k = i - start;
        assert(d[k] == c);
        assert(d.take(k + 1).drop_last() =~= d.take(k));
        if c < '0' || c > '9' {
            assert(!all_digits(d));
            return None;
        }
        let v = (c as u32 - '0' as u32) as u64;
        acc = acc * 10 + v;
        if acc > 0xFFFF_FFFF {
            proof {
                if all_digits(d) {
                    lemma_digits_value_prefix(d, k + 1);
                    assert(digits_value(d) > u32::MAX);
                }
            }
            return None;
        }
        i = i + 1;
    }
    assert(d.take(n - start) =~= d);
    Some(acc as u32)
}


/// What `str::parse::<i64>` reads: an optional `+` or `-` followed by one or
/// more decimal digits, whose signed value fits in an `i64`.
pub open spec fn i64_text(s: Seq<char>) -> Option<i64> {
    let signed = s.len() > 0 && (s[0] == '+' || s[0] == '-');
    let d = if signed { s.drop_first() } else { s };
    let v: int = if s.len() > 0 && s[0] == '-' { -(digits_value(d) as int) } else { digits_value(d) as int };
    if d.len() > 0 && all_digits(d) && i64::MIN <= v <= i64::MAX {
        Some(v as i64)
    } else {
        None
    }
}

/// Parses an `i64` as `str::parse::<i64>` does.
pub fn parse_i64(s: &str) -> (r: Option<i64>)
    ensures
        r == i64_text(s@),
{
    let n = s.unicode_len();
    let mut start: usize = 0;
    let mut neg = false;
    if n > 0 {
        let c0 = s.get_char(0);
        if c0 == '+' || c0 == '-' {
            start = 1;
            neg = c0 == '-';
        }
    }
    let ghost d = if s@.len() > 0 && (s@[0] == '+' || s@[0] == '-') { s@.drop_first() } else { s@ };
    if start == n {
        return None;
    }
    let mut acc: u128 = 0;
    let mut i: usize = start;
    while i < n
        invariant
            n == s@.len(),
            start <= i <= n,
            start < n,
            d == s@.skip(start as int),
            d == (if s@.len() > 0 && (s@[0] == '+' || s@[0] == '-') { s@.drop_first() } else { s@ }),
            all_digits(d.take(i - start)),
            acc == digits_value(d.take(i - start)),
            acc <= 0x8000_0000_0000_0000,
        decreases n - i,
    {
        let c = s.get_char(i);
        let ghost k = i - start;
        assert(d[k] == c);
        assert(d.take(k + 1).drop_last() =~= d.take(k));
        if c < '0' || c > '9' {
            assert(!all_digits(d));
            return None;
        }
        let v = (c as u32 - '0' as u32) as u128;
        acc = acc * 10 + v;
        if acc > 0x8000_0000_0000_0000 {
            proof {
                if all_digits(d) {
                    lemma_digits_value_prefix(d, k + 1);
                    assert(digits_value(d) > 0x8000_0000_0000_0000);
                }
            }
            return None;
        }
        i = i + 1;
    }
    assert(d.take(n - start) =~= d);
    if neg {
        let m = acc as i128;
        Some((-m) as i64)
    } else {
        if acc > 0x7FFF_FFFF_FFFF_FFFF {
            return None;
        }
        Some(acc as i64)
    }
}

} // verus!
