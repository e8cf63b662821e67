//! Text helpers: decimal and hexadecimal rendering, whitespace trimming and
//! decimal parsing, each stated over the characters it produces or reads.
use vstd::prelude::*;

verus! {

/// Appends `c` to `s`.
///
/// Trusted: calls `String::push`, whose documentation says it appends the
/// given char to the end of the string; the contract claims exactly that.
#[verifier::external_body]
pub(crate) fn push_char(s: &mut String, c: char)
    ensures
        final(s)@ == old(s)@.push(c),
{
    s.push(c);
}

/// Appends the characters of `t` to `s`.
pub fn push_str(s: &mut String, t: &str)
    ensures
        final(s)@ == old(s)@ + t@,
{
    s.append(t);
}

/// The character of a decimal digit `0 <= d < 10`.
pub open spec fn decimal_digit(d: nat) -> char {
    if d == 0 { '0' } else if d == 1 { '1' } else if d == 2 { '2' } else if d == 3 { '3' }
    else if d == 4 { '4' } else if d == 5 { '5' } else if d == 6 { '6' } else if d == 7 { '7' }
    else if d == 8 { '8' } else { '9' }
}

/// The character of a hexadecimal digit `0 <= d < 16`, lower case.
pub open spec fn hex_digit(d: nat) -> char {
    if d < 10 { decimal_digit(d) } else if d == 10 { 'a' } else if d == 11 { 'b' }
    else if d == 12 { 'c' } else if d == 13 { 'd' } else if d == 14 { 'e' } else { 'f' }
}

/// `n` written in decimal, without leading zeros (`"0"` for zero).
pub open spec fn decimal(n: nat) -> Seq<char>
    decreases n,
{
    if n < 10 { seq![decimal_digit(n)] } else { decimal(n / 10).push(decimal_digit(n % 10)) }
}

/// `n` written in lower-case hexadecimal, without leading zeros (`"0"` for zero).
pub open spec fn hex(n: nat) -> Seq<char>
    decreases n,
{
    if n < 16 { seq![hex_digit(n)] } else { hex(n / 16).push(hex_digit(n % 16)) }
}

/// `count` copies of `c`.
pub open spec fn repeat_char(c: char, count: int) -> Seq<char>
    decreases count,
{
    if count <= 0 { Seq::empty() } else { repeat_char(c, count - 1).push(c) }
}

/// `n` in lower-case hexadecimal, left-padded with zeros to at least `width` characters.
pub open spec fn hex_padded(n: nat, width: nat) -> Seq<char> {
    repeat_char('0', width - hex(n).len()) + hex(n)
}

fn decimal_digit_char(d: u64) -> (res: char)
    requires
        d < 10,
    ensures
        res == decimal_digit(d as nat),
{
    if d == 0 { '0' } else if d == 1 { '1' } else if d == 2 { '2' } else if d == 3 { '3' }
    else if d == 4 { '4' } else if d == 5 { '5' } else if d == 6 { '6' } else if d == 7 { '7' }
    else if d == 8 { '8' } else { '9' }
}

fn hex_digit_char(d: u64) -> (res: char)
    requires
        d < 16,
    ensures
        res == hex_digit(d as nat),
{
    if d < 10 { decimal_digit_char(d) } else if d == 10 { 'a' } else if d == 11 { 'b' }
    else if d == 12 { 'c' } else if d == 13 { 'd' } else if d == 14 { 'e' } else { 'f' }
}

/// Appends `n` in decimal.
pub fn push_decimal(s: &mut String, n: u64)
    ensures
        final(s)@ == old(s)@ + decimal(n as nat),
    decreases n,
{
    if n >= 10 {
        push_decimal(s, n / 10);
    }
    push_char(s, decimal_digit_char(n % 10));
    proof {
        if n < 10 {
            assert(old(s)@ + decimal(n as nat) =~= old(s)@.push(decimal_digit(n as nat)));
        } else {
            assert(old(s)@ + decimal(n as nat) =~= (old(s)@ + decimal((n / 10) as nat)).push(
                decimal_digit((n % 10) as nat),
            ));
        }
    }
}

/// `n` in decimal, as a new string.
pub fn decimal_string(n: u64) -> (res: String)
    ensures
        res@ == decimal(n as nat),
{
    let mut s = String::new();
    push_decimal(&mut s, n);
    assert(Seq::<char>::empty() + decimal(n as nat) =~= decimal(n as nat));
    s
}

/// Number of hexadecimal digits of `n`.
fn hex_len(n: u64) -> (res: usize)
    ensures
        res == hex(n as nat).len(),
        res <= 16,
    decreases n,
{
    if n < 16 {
        1
    } else {
        proof {
            lemma_hex_len_bound(n as nat);
        }
        hex_len(n / 16) + 1
    }
}

proof fn lemma_hex_len_bound(n: nat)
    requires
        n <= u64::MAX,
    ensures
        hex(n).len() <= 16,
    decreases n,
{
    if n >= 16 {
        assert(pow16(16) == 0x1_0000_0000_0000_0000nat) by {
            reveal_with_fuel(pow16, 17);
        }
        lemma_hex_len_bound_aux(n, 16);
    }
}

proof fn lemma_hex_len_bound_aux(n: nat, k: nat)
    requires
        1 <= k <= 16,
        n < pow16(k),
    ensures
        hex(n).len() <= k,
    decreases k,
{
    if n >= 16 {
        assert(n / 16 < pow16((k - 1) as nat)) by {
            assert(pow16(k) == 16 * pow16((k - 1) as nat));
        }
        if k == 1 {
            assert(pow16(1) == 16) by {
                assert(pow16(0) == 1);
            }
        } else {
            lemma_hex_len_bound_aux(n / 16, (k - 1) as nat);
        }
    }
}

spec fn pow16(k: nat) -> nat
    decreases k,
{
    if k == 0 { 1 } else { 16 * pow16((k - 1) as nat) }
}

/// Appends `n` in lower-case hexadecimal.
pub fn push_hex(s: &mut String, n: u64)
    ensures
        final(s)@ == old(s)@ + hex(n as nat),
    decreases n,
{
    if n >= 16 {
        push_hex(s, n / 16);
    }
    push_char(s, hex_digit_char(n % 16));
    proof {
        if n < 16 {
            assert(old(s)@ + hex(n as nat) =~= old(s)@.push(hex_digit(n as nat)));
        } else {
            assert(old(s)@ + hex(n as nat) =~= (old(s)@ + hex((n / 16) as nat)).push(
                hex_digit((n % 16) as nat),
            ));
        }
    }
}

/// Appends `n` in lower-case hexadecimal, zero-padded to `width` characters.
pub fn push_hex_padded(s: &mut String, n: u64, width: usize)
    ensures
        final(s)@ == old(s)@ + hex_padded(n as nat, width as nat),
{
    let len = hex_len(n);
    let mut k: usize = len;
    let ghost start = s@;
    assert(repeat_char('0', 0) =~= Seq::<char>::empty());
    assert(start + repeat_char('0', 0) =~= start);
    while k < width
        invariant
            len <= k,
            len == hex(n as nat).len(),
            s@ == start + repeat_char('0', (k - len) as int),
            k <= width || k == len,
        decreases width - k,
    {
        push_char(s, '0');
        assert(repeat_char('0', (k + 1 - len) as int) == repeat_char('0', (k - len) as int).push('0'));
        k = k + 1;
    }
    push_hex(s, n);
    assert(repeat_char('0', (k - len) as int) == repeat_char('0', width - hex(n as nat).len())) by {
        if k > width {
            assert(k == len);
        }
    }
    assert(s@ =~= start + hex_padded(n as nat, width as nat));
}

/// Whitespace as `char::is_whitespace` defines it (the Unicode `White_Space`
/// property).
pub open spec fn is_whitespace(c: char) -> bool {
    ||| ('\t' <= c && c <= '\r')
    ||| c == ' '
    ||| c == '\u{85}'
    ||| c == '\u{a0}'
    ||| c == '\u{1680}'
    ||| ('\u{2000}' <= c && c <= '\u{200a}')
    ||| c == '\u{2028}'
    ||| c == '\u{2029}'
    ||| c == '\u{202f}'
    ||| c == '\u{205f}'
    ||| c == '\u{3000}'
}

pub fn char_is_whitespace(c: char) -> (res: bool)
    ensures
        res == is_whitespace(c),
{
    ('\t' <= c && c <= '\r') || c == ' ' || c == '\u{85}' || c == '\u{a0}' || c == '\u{1680}' || (
    '\u{2000}' <= c && c <= '\u{200a}') || c == '\u{2028}' || c == '\u{2029}' || c == '\u{202f}'
        || c == '\u{205f}' || c == '\u{3000}'
}

/// `s` without its leading whitespace.
pub open spec fn trim_start(s: Seq<char>) -> Seq<char>
    decreases s.len(),
{
    if s.len() > 0 && is_whitespace(s[0]) { trim_start(s.drop_first()) } else { s }
}

/// `s` without its trailing whitespace.
pub open spec fn trim_end(s: Seq<char>) -> Seq<char>
    decreases s.len(),
{
    if s.len() > 0 && is_whitespace(s.last()) { trim_end(s.drop_last()) } else { s }
}

/// `s` without leading and trailing whitespace, as `str::trim` returns it.
pub open spec fn trimmed(s: Seq<char>) -> Seq<char> {
    trim_end(trim_start(s))
}

proof fn lemma_trim_start(s: Seq<char>, a: int)
    requires
        0 <= a <= s.len(),
        forall|i: int| 0 <= i < a ==> is_whitespace(s[i]),
        a == s.len() || !is_whitespace(s[a]),
    ensures
        trim_start(s) == s.skip(a),
    decreases a,
{
    if a == 0 {
        assert(s.skip(0) =~= s);
    } else {
        lemma_trim_start(s.drop_first(), a - 1);
        assert(s.drop_first().skip(a - 1) =~= s.skip(a));
    }
}

proof fn lemma_trim_end(s: Seq<char>, b: int)
    requires
        0 <= b <= s.len(),
        forall|i: int| b <= i < s.len() ==> is_whitespace(s[i]),
        b == 0 || !is_whitespace(s[b - 1]),
    ensures
        trim_end(s) == s.take(b),
    decreases s.len() - b,
{
    if b == s.len() {
        assert(s.take(b) =~= s);
    } else {
        lemma_trim_end(s.drop_last(), b);
        assert(s.drop_last().take(b) =~= s.take(b));
    }
}

/// `s` without leading and trailing whitespace.
pub fn trim_str(s: &str) -> (res: &str)
    ensures
        res@ == trimmed(s@),
{
    let n = s.unicode_len();
    let mut a: usize = 0;
    while a < n && char_is_whitespace(s.get_char(a))
        invariant
            n == s@.len(),
            a <= n,
            forall|i: int| 0 <= i < a ==> is_whitespace(s@[i]),
        decreases n - a,
    {
        a = a + 1;
    }
    let mut b: usize = n;
    while b > a && char_is_whitespace(s.get_char(b - 1))
        invariant
            n == s@.len(),
            a <= b <= n,
            forall|i: int| b <= i < n ==> is_whitespace(s@[i]),
        decreases b,
    {
        b = b - 1;
    }
    proof {
        lemma_trim_start(s@, a as int);
        let t = s@.skip(a as int);
        assert forall|i: int| (b - a) <= i < t.len() implies is_whitespace(t[i]) by {
            assert(t[i] == s@[a + i]);
        }
        if b > a {
            assert(t[b - a - 1] == s@[b - 1]);
        }
        lemma_trim_end(t, (b - a) as int);
        assert(t.take((b - a) as int) =~= s@.subrange(a as int, b as int));
    }
    s.substring_char(a, b)
}

/// A decimal digit character.
pub open spec fn is_digit(c: char) -> bool {
    '0' <= c && c <= '9'
}

pub open spec fn digit_value(c: char) -> int {
    c as int - '0' as int
}

/// The value of a string of decimal digits (0 for the empty string).
pub open spec fn digits_value(s: Seq<char>) -> int
    decreases s.len(),
{
    if s.len() == 0 { 0 } else { digits_value(s.drop_last()) * 10 + digit_value(s.last()) }
}

pub open spec fn all_digits(s: Seq<char>) -> bool {
    forall|i: int| 0 <= i < s.len() ==> is_digit(#[trigger] s[i])
}

/// What `str::parse::<u64>` returns: an optional `+` followed by at least one
/// decimal digit and nothing else, whose value fits in a `u64`.
pub open spec fn parse_u64(s: Seq<char>) -> Option<u64> {
    let digits = if s.len() > 0 && s[0] == '+' { s.drop_first() } else { s };
    if digits.len() == 0 || !all_digits(digits) || digits_value(digits) > u64::MAX {
        None
    } else {
        Some(digits_value(digits) as u64)
    }
}

proof fn lemma_digits_value_monotone(s: Seq<char>, k: int)
    requires
        0 <= k <= s.len(),
        all_digits(s),
    ensures
        digits_value(s.take(k)) <= digits_value(s),
        0 <= digits_value(s.take(k)),
    decreases s.len() - k,
{
    if k == s.len() {
        assert(s.take(k) =~= s);
        lemma_digits_value_nonneg(s);
    } else {
        let t = s.drop_last();
        assert(all_digits(t)) by {
            assert forall|i: int| 0 <= i < t.len() implies is_digit(#[trigger] t[i]) by {
                assert(t[i] == s[i]);
            }
        }
        lemma_digits_value_monotone(t, k);
        assert(t.take(k) =~= s.take(k));
        lemma_digits_value_nonneg(t);
        assert(is_digit(s[s.len() - 1]));
    }
}

proof fn lemma_digits_value_nonneg(s: Seq<char>)
    requires
        all_digits(s),
    ensures
        0 <= digits_value(s),
    decreases s.len(),
{
    if s.len() > 0 {
        let t = s.drop_last();
        assert(all_digits(t)) by {
            assert forall|i: int| 0 <= i < t.len() implies is_digit(#[trigger] t[i]) by {
                assert(t[i] == s[i]);
            }
        }
        lemma_digits_value_nonneg(t);
        assert(is_digit(s[s.len() - 1]));
    }
}

/// Parses a decimal `u64` as `str::parse::<u64>` does.
pub fn parse_u64_str(s: &str) -> (res: Option<u64>)
    ensures
        res == parse_u64(s@),
{
    let n = s.unicode_len();
    let mut i: usize = 0;
    if n > 0 && s.get_char(0) == '+' {
        i = 1;
    }
    let start = i;
    let ghost digits = s@.skip(start as int);
    if start == n {
        assert(digits.len() == 0);
        return None;
    }
    let mut value: u64 = 0;
    while i < n
        invariant
            n == s@.len(),
            start <= i <= n,
            start < n,
            digits == s@.skip(start as int),
            digits == if s@.len() > 0 && s@[0] == '+' { s@.drop_first() } else { s@ },
            all_digits(digits.take(i - start)),
            value == digits_value(digits.take(i - start)),
        decreases n - i,
    {
        let c = s.get_char(i);
        assert(c == digits[i - start]);
        let ghost prefix = digits.take(i - start + 1);
        assert(prefix.drop_last() =~= digits.take(i - start));
        if !('0' <= c && c <= '9') {
            assert(!all_digits(digits)) by {
                assert(!is_digit(digits[i - start]));
            }
            return None;
        }
        let d = (c as u32 - '0' as u32) as u64;
        assert(all_digits(prefix)) by {
            assert forall|j: int| 0 <= j < prefix.len() implies is_digit(#[trigger] prefix[j]) by {
                if j < i - start {
                    assert(prefix[j] == digits.take(i - start)[j]);
                }
            }
        }
        if value > (u64::MAX - d) / 10 {
            proof {
                assert(digits_value(prefix) > u64::MAX) by (nonlinear_arith)
                    requires
                        value > (u64::MAX - d) / 10,
                        digits_value(prefix) == value * 10 + d,
                        d < 10,
                ;
                if all_digits(digits) {
                    lemma_digits_value_monotone(digits, i - start + 1);
                }
            }
            return None;
        }
        assert(value * 10 + d <= u64::MAX) by (nonlinear_arith)
            requires
                value <= (u64::MAX - d) / 10,
                d < 10,
        ;
        value = value * 10 + d;
        i = i + 1;
    }
    assert(digits.take(n - start) =~= digits);
    Some(value)
}

/// `t` followed by spaces up to `width` characters (`format!("{:<width$}")`).
pub open spec fn pad_right(t: Seq<char>, width: int) -> Seq<char> {
    t + repeat_char(' ', width - t.len())
}

/// Spaces up to `width` characters followed by `t` (`format!("{:>width$}")`).
pub open spec fn pad_left(t: Seq<char>, width: int) -> Seq<char> {
    repeat_char(' ', width - t.len()) + t
}

/// Appends `count` copies of `c`.
pub fn push_repeated(s: &mut String, c: char, count: usize)
    ensures
        final(s)@ == old(s)@ + repeat_char(c, count as int),
{
    let ghost start = s@;
    let mut k: usize = 0;
    assert(start + repeat_char(c, 0) =~= start);
    while k < count
        invariant
            k <= count,
            s@ == start + repeat_char(c, k as int),
        decreases count - k,
    {
        push_char(s, c);
        assert(repeat_char(c, k + 1) == repeat_char(c, k as int).push(c));
        k = k + 1;
    }
}

/// Appends `t` padded on the right with spaces to `width` characters.
pub fn push_padded_right(s: &mut String, t: &str, width: usize)
    ensures
        final(s)@ == old(s)@ + pad_right(t@, width as int),
{
    let n = t.unicode_len();
    push_str(s, t);
    let fill = if n < width { width - n } else { 0 };
    push_repeated(s, ' ', fill);
    assert(repeat_char(' ', fill as int) == repeat_char(' ', width - t@.len()));
}

/// Appends `t` padded on the left with spaces to `width` characters.
pub fn push_padded_left(s: &mut String, t: &str, width: usize)
    ensures
        final(s)@ == old(s)@ + pad_left(t@, width as int),
{
    let n = t.unicode_len();
    let fill = if n < width { width - n } else { 0 };
    push_repeated(s, ' ', fill);
    assert(repeat_char(' ', fill as int) == repeat_char(' ', width - t@.len()));
    push_str(s, t);
}

} // verus!
