//! Verified helpers over strings: substring search, prefix tests, locating
//! separators, whitespace fields and decimal parsing. All contracts are stated
//! over the `Seq<char>` view of the text.

use vstd::prelude::*;

verus! {

/// `needle` occurs in `s` starting at position `i`.
pub open spec fn occurs_at(s: Seq<char>, needle: Seq<char>, i: int) -> bool {
    &&& 0 <= i
    &&& i + needle.len() <= s.len()
    &&& s.subrange(i, i + needle.len() as int) == needle
}

/// `needle` occurs somewhere in `s`.
pub open spec fn contains_seq(s: Seq<char>, needle: Seq<char>) -> bool {
    exists|i: int| occurs_at(s, needle, i)
}

/// `prefix` is an initial segment of `s`.
pub open spec fn starts_with(s: Seq<char>, prefix: Seq<char>) -> bool {
    prefix.len() <= s.len() && s.subrange(0, prefix.len() as int) == prefix
}

/// Whether `s` and `needle` agree on a window of `needle`'s length at `i`,
/// decided character by character.
fn matches_at(s: &str, needle: &str, i: usize) -> (r: bool)
    requires
        i + needle@.len() <= s@.len(),
    ensures
        r == occurs_at(s@, needle@, i as int),
{
    let s_len = s.unicode_len();
    let n = needle.unicode_len();
    let mut j: usize = 0;
    while j < n
        invariant
            n == needle@.len(),
            s_len == s@.len(),
            0 <= j <= n,
            i + n <= s_len,
            forall|k: int| 0 <= k < j ==> s@[i + k] == needle@[k],
        decreases n - j,
    {
        if s.get_char(i + j) != needle.get_char(j) {
            assert(s@.subrange(i as int, i + needle@.len() as int)[j as int] != needle@[j as int]);
            return false;
        }
        j += 1;
    }
    assert(s@.subrange(i as int, i + needle@.len() as int) =~= needle@);
    true
}

/// Substring search by scanning every window.
pub fn contains_str(s: &str, needle: &str) -> (r: bool)
    ensures
        r == contains_seq(s@, needle@),
{
    let n = s.unicode_len();
    let m = needle.unicode_len();
    if m > n {
        assert(forall|i: int| !occurs_at(s@, needle@, i));
        return false;
    }
    if m == 0 {
        assert(s@.subrange(0, 0) =~= needle@);
        assert(occurs_at(s@, needle@, 0));
        return true;
    }
    let mut i: usize = 0;
    while i <= n - m
        invariant
            n == s@.len(),
            m == needle@.len(),
            1 <= m <= n,
            0 <= i <= n - m + 1,
            forall|k: int| 0 <= k < i ==> !occurs_at(s@, needle@, k),
        decreases n - i,
    {
        if matches_at(s, needle, i) {
            return true;
        }
        i += 1;
    }
    assert(forall|k: int| occurs_at(s@, needle@, k) ==> 0 <= k <= n - m);
    false
}

/// Prefix test.
pub fn starts_with_str(s: &str, prefix: &str) -> (r: bool)
    ensures
        r == starts_with(s@, prefix@),
{
    let n = s.unicode_len();
    let m = prefix.unicode_len();
    if m > n {
        return false;
    }
    let r = matches_at(s, prefix, 0);
    assert(occurs_at(s@, prefix@, 0) == starts_with(s@, prefix@));
    r
}

/// Index of the last occurrence of `c` in `s`, if any.
pub fn find_last_char(s: &str, c: char) -> (r: Option<usize>)
    ensures
        match r {
            Some(i) => i < s@.len() && s@[i as int] == c && forall|j: int|
                i < j < s@.len() ==> s@[j] != c,
            None => forall|j: int| 0 <= j < s@.len() ==> s@[j] != c,
        },
{
    let n = s.unicode_len();
    let mut i: usize = n;
    while i > 0
        invariant
            n == s@.len(),
            0 <= i <= n,
            forall|j: int| i <= j < n ==> s@[j] != c,
        decreases i,
    {
        i -= 1;
        if s.get_char(i) == c {
            return Some(i);
        }
    }
    None
}

/// Field-separating whitespace: the blank and the horizontal tab.
pub open spec fn is_ws(c: char) -> bool {
    c == ' ' || c == '\t'
}

/// The first position at or after `i` holding a non-whitespace character, or
/// the length of `s` when the rest is whitespace.
pub open spec fn skip_ws_idx(s: Seq<char>, i: int) -> int
    decreases s.len() - i,
{
    if i < 0 || i >= s.len() {
        s.len() as int
    } else if !is_ws(s[i]) {
        i
    } else {
        skip_ws_idx(s, i + 1)
    }
}

/// The first position at or after `i` holding a whitespace character, or the
/// length of `s` when the rest is solid.
pub open spec fn end_of_word_idx(s: Seq<char>, i: int) -> int
    decreases s.len() - i,
{
    if i < 0 || i >= s.len() {
        s.len() as int
    } else if is_ws(s[i]) {
        i
    } else {
        end_of_word_idx(s, i + 1)
    }
}

/// Start of the first field.
pub open spec fn field1_start(s: Seq<char>) -> int {
    skip_ws_idx(s, 0)
}

/// End of the first field.
pub open spec fn field1_end(s: Seq<char>) -> int {
    end_of_word_idx(s, field1_start(s))
}

/// Start of the second field.
pub open spec fn field2_start(s: Seq<char>) -> int {
    skip_ws_idx(s, field1_end(s))
}

/// End of the second field.
pub open spec fn field2_end(s: Seq<char>) -> int {
    end_of_word_idx(s, field2_start(s))
}

/// `s` consists of exactly two whitespace-separated fields.
pub open spec fn has_two_fields(s: Seq<char>) -> bool {
    &&& field1_start(s) < field1_end(s)
    &&& field2_start(s) < field2_end(s)
    &&& skip_ws_idx(s, field2_end(s)) == s.len()
}

/// The first whitespace-separated field of `s`.
pub open spec fn field1(s: Seq<char>) -> Seq<char> {
    s.subrange(field1_start(s), field1_end(s))
}

/// The second whitespace-separated field of `s`.
pub open spec fn field2(s: Seq<char>) -> Seq<char> {
    s.subrange(field2_start(s), field2_end(s))
}

fn is_ws_char(c: char) -> (r: bool)
    ensures
        r == is_ws(c),
{
    c == ' ' || c == '\t'
}

/// First non-whitespace position at or after `i`.
fn skip_ws(s: &str, i: usize) -> (r: usize)
    requires
        i <= s@.len(),
    ensures
        r == skip_ws_idx(s@, i as int),
        i <= r <= s@.len(),
{
    let n = s.unicode_len();
    let mut j: usize = i;
    while j < n && is_ws_char(s.get_char(j))
        invariant
            n == s@.len(),
            i <= j <= n,
            skip_ws_idx(s@, i as int) == skip_ws_idx(s@, j as int),
        decreases n - j,
    {
        j += 1;
    }
    proof {
        reveal_with_fuel(skip_ws_idx, 2);
    }
    j
}

/// First whitespace position at or after `i`.
fn end_of_word(s: &str, i: usize) -> (r: usize)
    requires
        i <= s@.len(),
    ensures
        r == end_of_word_idx(s@, i as int),
        i <= r <= s@.len(),
{
    let n = s.unicode_len();
    let mut j: usize = i;
    while j < n && !is_ws_char(s.get_char(j))
        invariant
            n == s@.len(),
            i <= j <= n,
            end_of_word_idx(s@, i as int) == end_of_word_idx(s@, j as int),
        decreases n - j,
    {
        j += 1;
    }
    proof {
        reveal_with_fuel(end_of_word_idx, 2);
    }
    j
}

/// The two whitespace-separated fields of `s`, when `s` holds exactly two.
pub fn two_fields(s: &str) -> (r: Option<(&str, &str)>)
    ensures
        match r {
            Some(p) => has_two_fields(s@) && p.0@ == field1(s@) && p.1@ == field2(s@),
            None => !has_two_fields(s@),
        },
{
    let n = s.unicode_len();
    let a = skip_ws(s, 0);
    let b = end_of_word(s, a);
    let c = skip_ws(s, b);
    let d = end_of_word(s, c);
    let e = skip_ws(s, d);
    if a < b && c < d && e == n {
        let f1 = s.substring_char(a, b);
        let f2 = s.substring_char(c, d);
        Some((f1, f2))
    } else {
        None
    }
}

/// Decimal digit.
pub open spec fn is_digit(c: char) -> bool {
    '0' <= c && c <= '9'
}

/// Numeric value of a decimal digit.
pub open spec fn digit_val(c: char) -> int {
    c as int - '0' as int
}

/// Every character of `s` is a decimal digit.
pub open spec fn all_digits(s: Seq<char>) -> bool {
    forall|i: int| 0 <= i < s.len() ==> is_digit(#[trigger] s[i])
}

/// Value of a sequence of decimal digits, most significant first.
pub open spec fn digits_value(s: Seq<char>) -> int
    decreases s.len(),
{
    if s.len() == 0 {
        0
    } else {
        digits_value(s.drop_last()) * 10 + digit_val(s.last())
    }
}

/// The digits of a decimal integer literal: what follows an optional sign.
pub open spec fn int_body(s: Seq<char>) -> Seq<char> {
    if s.len() > 0 && (s[0] == '-' || s[0] == '+') {
        s.skip(1)
    } else {
        s
    }
}

/// Sign of a decimal integer literal.
pub open spec fn int_negative(s: Seq<char>) -> bool {
    s.len() > 0 && s[0] == '-'
}

/// `s` is a decimal integer: an optional sign followed by one or more digits.
pub open spec fn is_int_literal(s: Seq<char>) -> bool {
    int_body(s).len() > 0 && all_digits(int_body(s))
}

/// Mathematical value of a decimal integer literal.
pub open spec fn int_value(s: Seq<char>) -> int {
    if int_negative(s) {
        -digits_value(int_body(s))
    } else {
        digits_value(int_body(s))
    }
}

/// `s` is a decimal integer whose value fits a 64-bit signed integer.
pub open spec fn is_i64_literal(s: Seq<char>) -> bool {
    is_int_literal(s) && i64::MIN <= int_value(s) <= i64::MAX
}

proof fn lemma_digits_value_nonneg(s: Seq<char>)
    requires
        all_digits(s),
    ensures
        digits_value(s) >= 0,
    decreases s.len(),
{
    if s.len() > 0 {
        assert(all_digits(s.drop_last())) by {
            assert(forall|i: int|
                0 <= i < s.len() - 1 ==> is_digit(#[trigger] s.drop_last()[i]));
        }
        lemma_digits_value_nonneg(s.drop_last());
    }
}

proof fn lemma_digits_value_grows(s: Seq<char>, i: int)
    requires
        all_digits(s),
        0 <= i <= s.len(),
    ensures
        digits_value(s.take(i)) <= digits_value(s),
    decreases s.len() - i,
{
    assert(forall|j: int| 0 <= j <= s.len() ==> all_digits(#[trigger] s.take(j)));
    if i < s.len() {
        lemma_digits_value_grows(s, i + 1);
        assert(s.take(i + 1).drop_last() =~= s.take(i));
        assert(s.take(i + 1).last() == s[i]);
        lemma_digits_value_nonneg(s.take(i));
        assert(digits_value(s.take(i)) * 10 >= digits_value(s.take(i))) by (nonlinear_arith)
            requires digits_value(s.take(i)) >= 0;
    } else {
        assert(s.take(i) =~= s);
    }
}

/// Value of the digits of `s` from position `from` on, as accumulated by a
/// left-to-right scan.
fn digits_to_u64(s: &str, from: usize) -> (r: Option<u64>)
    requires
        from <= s@.len(),
        all_digits(s@.skip(from as int)),
    ensures
        match r {
            Some(v) => v == digits_value(s@.skip(from as int)),
            None => digits_value(s@.skip(from as int)) > u64::MAX,
        },
{
    let n = s.unicode_len();
    let ghost body = s@.skip(from as int);
    let mut acc: u64 = 0;
    let mut j: usize = from;
    while j < n
        invariant
            n == s@.len(),
            from <= j <= n,
            body == s@.skip(from as int),
            all_digits(body),
            acc == digits_value(body.take(j - from)),
        decreases n - j,
    {
        let c = s.get_char(j);
        assert(c == body[j - from]);
        assert(is_digit(c));
        let d: u64 = (c as u32 as u64) - ('0' as u32 as u64);
        assert(d == digit_val(c));
        let next = match acc.checked_mul(10) {
            Some(m) => m.checked_add(d),
            None => None,
        };
        proof {
            assert(body.take(j - from + 1).drop_last() =~= body.take(j - from));
            assert(body.take(j - from + 1).last() == body[j - from]);
        }
        match next {
            Some(v) => {
                acc = v;
            },
            None => {
                proof {
                    lemma_digits_value_grows(body, j - from + 1);
                }
                return None;
            },
        }
        j += 1;
    }
    assert(body.take(n - from) =~= body);
    Some(acc)
}

/// Parses a decimal 64-bit signed integer, as the volume manager prints
/// creation times: an optional sign followed by decimal digits, nothing else.
pub fn parse_i64(s: &str) -> (r: Option<i64>)
    ensures
        match r {
            Some(v) => is_i64_literal(s@) && v == int_value(s@),
            None => !is_i64_literal(s@),
        },
{
    let n = s.unicode_len();
    if n == 0 {
        return None;
    }
    let c0 = s.get_char(0);
    let (neg, start): (bool, usize) = if c0 == '-' {
        (true, 1)
    } else if c0 == '+' {
        (false, 1)
    } else {
        (false, 0)
    };
    assert(s@.skip(start as int) =~= int_body(s@));
    if start == n {
        return None;
    }
    let mut j: usize = start;
    while j < n
        invariant
            n == s@.len(),
            start <= j <= n,
            int_body(s@) == s@.skip(start as int),
            forall|k: int| start <= k < j ==> is_digit(#[trigger] s@[k]),
        decreases n - j,
    {
        let c = s.get_char(j);
        let u = c as u32;
        if u < '0' as u32 || u > '9' as u32 {
            assert(!is_digit(s@[j as int]));
            assert(int_body(s@).len() == n - start);
            assert(int_body(s@)[j - start] == s@.skip(start as int)[j - start]);
            assert(!is_digit(int_body(s@)[j - start]));
            return None;
        }
        j += 1;
    }
    assert(all_digits(int_body(s@))) by {
        assert(forall|k: int|
            0 <= k < int_body(s@).len() ==> int_body(s@)[k] == s@[k + start]);
    }
    let mag = match digits_to_u64(s, start) {
        Some(m) => m,
        None => {
            return None;
        },
    };
    assert(mag == digits_value(int_body(s@)));
    if neg {
        if mag > 9223372036854775808u64 {
            return None;
        }
        if mag == 9223372036854775808u64 {
            Some(i64::MIN)
        } else {
            Some(-(mag as i64))
        }
    } else {
        if mag > 9223372036854775807u64 {
            return None;
        }
        Some(mag as i64)
    }
}

} // verus!
