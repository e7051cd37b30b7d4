//! Character-level helpers shared by the rest of the library: turning strings
//! into character vectors and back, decimal and hexadecimal formatting, and the
//! whitespace and case rules that `trim` and friends follow.

use vstd::prelude::*;
use vstd::string::*;

verus! {

/// The characters of a string, in order.
pub fn chars_of(s: &str) -> (v: Vec<char>)
    ensures
        v@ == s@,
{
    let mut v: Vec<char> = Vec::new();
    for c in it: s.chars()
        invariant
            v@ == it.seq().take(it.index() as int),
    {
        v.push(c);
    }
    v
}

/// `String::push`, which appends one character.
#[verifier::external_body]
fn push_char(s: &mut String, c: char)
    ensures
        final(s)@ == old(s)@.push(c),
{
    s.push(c);
}

/// Appends one character to a string.
pub fn append_char(s: &mut String, c: char)
    ensures
        final(s)@ == old(s)@.push(c),
{
    push_char(s, c);
}

/// Appends a string slice to a string.
pub fn append_str(s: &mut String, t: &str)
    ensures
        final(s)@ == old(s)@ + t@,
{
    s.append(t);
}

/// The string made of the given characters.
pub fn string_from_chars(cs: &[char]) -> (r: String)
    ensures
        r@ == cs@,
{
    let mut r = String::new();
    let mut i: usize = 0;
    while i < cs.len()
        invariant
            i <= cs.len(),
            r@ == cs@.take(i as int),
        decreases cs.len() - i,
    {
        push_char(&mut r, cs[i]);
        assert(cs@.take(i + 1) == cs@.take(i as int).push(cs@[i as int]));
        i = i + 1;
    }
    assert(cs@.take(cs.len() as int) == cs@);
    r
}

/// Copies a string slice into an owned string.
pub fn owned(s: &str) -> (r: String)
    ensures
        r@ == s@,
{
    let mut r = String::new();
    r.append(s);
    r
}

/// Whether two string slices hold the same text.
pub fn str_eq(a: &str, b: &str) -> (r: bool)
    ensures
        r == (a@ == b@),
{
    owned(a) == owned(b)
}

// ---------------------------------------------------------------------------
// Digits
// ---------------------------------------------------------------------------

/// The lower-case hexadecimal digit for `d < 16` (decimal digits for `d < 10`).
pub open spec fn digit_char(d: nat) -> char {
    if d < 10 {
        (d + 48) as char
    } else {
        (d + 87) as char
    }
}

/// The character for one digit value.
pub fn digit(d: u8) -> (c: char)
    requires
        d < 16,
    ensures
        c == digit_char(d as nat),
{
    if d < 10 {
        (d + 48) as char
    } else {
        (d + 87) as char
    }
}

/// Whether a character is an ASCII decimal digit.
pub open spec fn is_decimal_digit(c: char) -> bool {
    '0' <= c <= '9'
}

/// Whether a character is a lower-case hexadecimal digit (`0-9`, `a-f`).
pub open spec fn is_lower_hex_digit(c: char) -> bool {
    ('0' <= c <= '9') || ('a' <= c <= 'f')
}

/// Shortest decimal representation of a natural number, without sign.
pub open spec fn decimal(n: nat) -> Seq<char>
    decreases n,
{
    if n < 10 {
        seq![digit_char(n)]
    } else {
        decimal(n / 10).push(digit_char(n % 10))
    }
}

/// Decimal representation of an integer, with a leading `-` when negative.
pub open spec fn signed_decimal(n: int) -> Seq<char> {
    if n < 0 {
        seq!['-'] + decimal((-n) as nat)
    } else {
        decimal(n as nat)
    }
}

/// The value of a string of decimal digits.
pub open spec fn decimal_value(s: Seq<char>) -> nat
    decreases s.len(),
{
    if s.len() == 0 {
        0
    } else {
        decimal_value(s.drop_last()) * 10 + ((s.last() as nat) - 48) as nat
    }
}

/// `n` printed in lower-case hexadecimal, zero-padded to exactly `width` digits
/// (only the low `width` digits are kept).
pub open spec fn hex_fixed(n: nat, width: nat) -> Seq<char>
    decreases width,
{
    if width == 0 {
        Seq::empty()
    } else {
        hex_fixed(n / 16, (width - 1) as nat).push(digit_char(n % 16))
    }
}

pub proof fn lemma_digit_char_value(d: nat)
    requires
        d < 10,
    ensures
        digit_char(d) as nat == d + 48,
        is_decimal_digit(digit_char(d)),
{
}

pub proof fn lemma_decimal_digits(n: nat)
    ensures
        decimal(n).len() >= 1,
        forall|i: int| 0 <= i < decimal(n).len() ==> is_decimal_digit(#[trigger] decimal(n)[i]),
        decimal_value(decimal(n)) == n,
        n > 0 ==> decimal(n)[0] != '0',
    decreases n,
{
    lemma_digit_char_value(n % 10);
    if n >= 10 {
        lemma_decimal_digits(n / 10);
        let d = decimal(n / 10);
        assert(decimal(n).drop_last() == d);
        assert(decimal(n).last() == digit_char(n % 10));
        assert(decimal_value(decimal(n)) == decimal_value(d) * 10 + ((digit_char(n % 10) as nat) - 48) as nat);
        assert(n == (n / 10) * 10 + n % 10);
    } else {
        assert(decimal(n).drop_last() =~= Seq::<char>::empty());
        assert(decimal_value(Seq::<char>::empty()) == 0);
        assert(decimal(n).last() == digit_char(n));
        assert(decimal_value(decimal(n)) == 0 * 10 + ((digit_char(n) as nat) - 48) as nat);
    }
}

/// The decimal representation is injective: distinct numbers print differently.
pub proof fn lemma_decimal_injective(a: nat, b: nat)
    requires
        decimal(a) == decimal(b),
    ensures
        a == b,
{
    lemma_decimal_digits(a);
    lemma_decimal_digits(b);
}

/// Decimal digits of an unsigned integer.
pub fn decimal_string(n: u64) -> (r: String)
    ensures
        r@ == decimal(n as nat),
{
    let mut digits: Vec<char> = Vec::new();
    let mut m: u64 = n;
    // `digits` holds the low digits in reverse order.
    let ghost mut low: Seq<char> = Seq::empty();
    while m >= 10
        invariant
            decimal(n as nat) == decimal(m as nat) + low,
            digits@ == low.reverse(),
        decreases m,
    {
        let d = (m % 10) as u8;
        proof {
            assert(decimal(m as nat) == decimal((m / 10) as nat).push(digit_char((m % 10) as nat)));
            assert(decimal((m / 10) as nat) + low.insert(0, digit_char((m % 10) as nat))
                =~= decimal((m / 10) as nat).push(digit_char((m % 10) as nat)) + low);
        }
        digits.push(digit(d));
        proof {
            low = low.insert(0, digit_char((m % 10) as nat));
            assert(digits@ =~= low.reverse());
        }
        m = m / 10;
    }
    digits.push(digit(m as u8));
    let ghost full = low.insert(0, digit_char(m as nat));
    assert(decimal(n as nat) =~= full);
    assert(digits@ =~= full.reverse());
    let mut r = String::new();
    let mut i: usize = digits.len();
    while i > 0
        invariant
            i <= digits.len(),
            digits@ == full.reverse(),
            r@ == full.take((digits.len() - i) as int),
        decreases i,
    {
        i = i - 1;
        proof {
            let k = (digits.len() - i - 1) as int;
            assert(full.take(k + 1) =~= full.take(k).push(full[k]));
        }
        push_char(&mut r, digits[i]);
    }
    assert(full.take(digits.len() as int) =~= full);
    r
}

/// Decimal digits of a signed integer, `-` first when negative.
pub fn signed_decimal_string(n: i64) -> (r: String)
    ensures
        r@ == signed_decimal(n as int),
{
    if n < 0 {
        let magnitude: u64 = if n == i64::MIN {
            9223372036854775808u64
        } else {
            (-n) as u64
        };
        let mut r = String::new();
        push_char(&mut r, '-');
        let digits = decimal_string(magnitude);
        r.append(digits.as_str());
        r
    } else {
        decimal_string(n as u64)
    }
}

/// `n` in lower-case hexadecimal, zero-padded to sixteen digits (`{:016x}`).
pub fn hex16(n: u64) -> (r: String)
    ensures
        r@ == hex_fixed(n as nat, 16),
{
    let mut digits: Vec<char> = Vec::new();
    let mut m: u64 = n;
    let mut k: usize = 0;
    let ghost mut low: Seq<char> = Seq::empty();
    while k < 16
        invariant
            k <= 16,
            hex_fixed(n as nat, 16) == hex_fixed(m as nat, (16 - k) as nat) + low,
            digits@ == low.reverse(),
            low.len() == k,
        decreases 16 - k,
    {
        let d = (m % 16) as u8;
        proof {
            let w = (16 - k) as nat;
            assert(hex_fixed(m as nat, w) == hex_fixed((m / 16) as nat, (w - 1) as nat).push(
                digit_char((m % 16) as nat),
            ));
            assert(hex_fixed((m / 16) as nat, (w - 1) as nat) + low.insert(
                0,
                digit_char((m % 16) as nat),
            ) =~= hex_fixed((m / 16) as nat, (w - 1) as nat).push(digit_char((m % 16) as nat))
                + low);
        }
        digits.push(digit(d));
        proof {
            low = low.insert(0, digit_char((m % 16) as nat));
            assert(digits@ =~= low.reverse());
        }
        m = m / 16;
        k = k + 1;
    }
    assert(hex_fixed(n as nat, 16) =~= low);
    let mut r = String::new();
    let mut i: usize = digits.len();
    while i > 0
        invariant
            i <= digits.len(),
            digits.len() == 16,
            digits@ == low.reverse(),
            low.len() == 16,
            r@ == low.take((16 - i) as int),
        decreases i,
    {
        i = i - 1;
        proof {
            let k2 = (16 - i - 1) as int;
            assert(low.take(k2 + 1) =~= low.take(k2).push(low[k2]));
        }
        push_char(&mut r, digits[i]);
    }
    assert(low.take(16) =~= low);
    r
}

// ---------------------------------------------------------------------------
// Whitespace and case
// ---------------------------------------------------------------------------

/// The Unicode `White_Space` characters, which `str::trim` removes.
pub open spec fn is_whitespace(c: char) -> bool {
    ||| '\u{9}' <= c <= '\u{d}'
    ||| c == ' '
    ||| c == '\u{85}'
    ||| c == '\u{a0}'
    ||| c == '\u{1680}'
    ||| '\u{2000}' <= c <= '\u{200a}'
    ||| c == '\u{2028}'
    ||| c == '\u{2029}'
    ||| c == '\u{202f}'
    ||| c == '\u{205f}'
    ||| c == '\u{3000}'
}

/// Whether a character is Unicode white space.
pub fn whitespace(c: char) -> (b: bool)
    ensures
        b == is_whitespace(c),
{
    ('\u{9}' <= c && c <= '\u{d}') || c == ' ' || c == '\u{85}' || c == '\u{a0}' || c == '\u{1680}'
        || ('\u{2000}' <= c && c <= '\u{200a}') || c == '\u{2028}' || c == '\u{2029}' || c
        == '\u{202f}' || c == '\u{205f}' || c == '\u{3000}'
}

/// Leading white space removed.
pub open spec fn trim_start(s: Seq<char>) -> Seq<char>
    decreases s.len(),
{
    if s.len() > 0 && is_whitespace(s[0]) {
        trim_start(s.drop_first())
    } else {
        s
    }
}

/// Trailing white space removed.
pub open spec fn trim_end(s: Seq<char>) -> Seq<char>
    decreases s.len(),
{
    if s.len() > 0 && is_whitespace(s.last()) {
        trim_end(s.drop_last())
    } else {
        s
    }
}

/// Leading and trailing white space removed, as `str::trim` does.
pub open spec fn trim(s: Seq<char>) -> Seq<char> {
    trim_end(trim_start(s))
}

proof fn lemma_trim_start_skip(s: Seq<char>, i: int)
    requires
        0 <= i <= s.len(),
        forall|j: int| 0 <= j < i ==> is_whitespace(#[trigger] s[j]),
    ensures
        trim_start(s) == trim_start(s.skip(i)),
    decreases i,
{
    if i > 0 {
        assert(is_whitespace(s[0]));
        assert(s.drop_first().skip(i - 1) =~= s.skip(i));
        lemma_trim_start_skip(s.drop_first(), i - 1);
    } else {
        assert(s.skip(0) =~= s);
    }
}

proof fn lemma_trim_end_take(s: Seq<char>, i: int)
    requires
        0 <= i <= s.len(),
        forall|j: int| i <= j < s.len() ==> is_whitespace(#[trigger] s[j]),
    ensures
        trim_end(s) == trim_end(s.take(i)),
    decreases s.len() - i,
{
    if i < s.len() {
        assert(is_whitespace(s[s.len() - 1]));
        assert(s.drop_last().take(i) =~= s.take(i));
        lemma_trim_end_take(s.drop_last(), i);
    } else {
        assert(s.take(s.len() as int) =~= s);
    }
}

/// `s` with leading and trailing white space removed (`str::trim`).
pub fn trimmed(s: &[char]) -> (r: Vec<char>)
    ensures
        r@ == trim(s@),
{
    let mut start: usize = 0;
    while start < s.len() && whitespace(s[start])
        invariant
            start <= s.len(),
            forall|j: int| 0 <= j < start ==> is_whitespace(#[trigger] s@[j]),
        decreases s.len() - start,
    {
        start = start + 1;
    }
    proof {
        lemma_trim_start_skip(s@, start as int);
    }
    let mut end: usize = s.len();
    while end > start && whitespace(s[end - 1])
        invariant
            start <= end <= s.len(),
            forall|j: int| end <= j < s.len() ==> is_whitespace(#[trigger] s@[j]),
        decreases end,
    {
        end = end - 1;
    }
    let ghost rest = s@.skip(start as int);
    proof {
        assert(forall|j: int| (end - start) <= j < rest.len() ==> is_whitespace(#[trigger] rest[j])
            ) by {
            assert forall|j: int| (end - start) <= j < rest.len() implies is_whitespace(
                #[trigger] rest[j],
            ) by {
                assert(rest[j] == s@[j + start]);
            }
        }
        lemma_trim_end_take(rest, (end - start) as int);
        if start < s.len() {
            assert(!is_whitespace(rest[0]));
        }
        if end > start {
            assert(!is_whitespace(rest.take((end - start) as int).last()));
        }
    }
    let mut r: Vec<char> = Vec::new();
    let mut i: usize = start;
    while i < end
        invariant
            start <= i <= end <= s.len(),
            r@ == s@.subrange(start as int, i as int),
        decreases end - i,
    {
        r.push(s[i]);
        assert(s@.subrange(start as int, i + 1) =~= s@.subrange(start as int, i as int).push(
            s@[i as int],
        ));
        i = i + 1;
    }
    assert(rest.take((end - start) as int) =~= s@.subrange(start as int, end as int));
    r
}

/// ASCII upper-case letters mapped to lower case; everything else unchanged.
pub open spec fn ascii_lower_char(c: char) -> char {
    if 'A' <= c <= 'Z' {
        ((c as nat) + 32) as char
    } else {
        c
    }
}

/// `str::to_ascii_lowercase` on a character sequence.
pub open spec fn ascii_lower(s: Seq<char>) -> Seq<char> {
    s.map_values(|c: char| ascii_lower_char(c))
}

/// `char::to_ascii_lowercase`.
pub fn lower_ascii_char(c: char) -> (r: char)
    ensures
        r == ascii_lower_char(c),
{
    if 'A' <= c && c <= 'Z' {
        ((c as u32) + 32) as u8 as char
    } else {
        c
    }
}

/// `str::to_ascii_lowercase` on a character vector.
pub fn lower_ascii(s: &[char]) -> (r: Vec<char>)
    ensures
        r@ == ascii_lower(s@),
{
    let mut r: Vec<char> = Vec::new();
    let mut i: usize = 0;
    while i < s.len()
        invariant
            i <= s.len(),
            r@ == ascii_lower(s@.take(i as int)),
        decreases s.len() - i,
    {
        r.push(lower_ascii_char(s[i]));
        assert(ascii_lower(s@.take(i + 1)) =~= ascii_lower(s@.take(i as int)).push(
            ascii_lower_char(s@[i as int]),
        ));
        i = i + 1;
    }
    assert(s@.take(s.len() as int) =~= s@);
    r
}

/// Whether `needle` occurs in `hay` as a contiguous run of characters.
pub open spec fn contains_seq(hay: Seq<char>, needle: Seq<char>) -> bool {
    exists|i: int| 0 <= i <= hay.len() - needle.len() && #[trigger] hay.subrange(i, i + needle.len()) == needle
}

/// `str::contains` on character vectors.
pub fn contains_chars(hay: &[char], needle: &[char]) -> (b: bool)
    ensures
        b == contains_seq(hay@, needle@),
{
    if needle.len() > hay.len() {
        return false;
    }
    let mut i: usize = 0;
    while i <= hay.len() - needle.len()
        invariant
            needle.len() <= hay.len(),
            i <= hay.len() - needle.len() + 1,
            forall|k: int| 0 <= k < i ==> #[trigger] hay@.subrange(k, k + needle.len()) != needle@,
        decreases hay.len() - needle.len() + 1 - i,
    {
        let mut j: usize = 0;
        let mut same = true;
        while j < needle.len()
            invariant
                i + needle.len() <= hay.len(),
                j <= needle.len(),
                same == (forall|m: int| 0 <= m < j ==> hay@[i + m] == needle@[m]),
            decreases needle.len() - j,
        {
            if hay[i + j] != needle[j] {
                same = false;
            }
            j = j + 1;
        }
        if same {
            assert(hay@.subrange(i as int, i + needle.len()) =~= needle@);
            return true;
        }
        assert(hay@.subrange(i as int, i + needle.len()) != needle@) by {
            let m = choose|m: int| 0 <= m < needle.len() && hay@[i + m] != needle@[m];
            assert(hay@.subrange(i as int, i + needle.len())[m] == hay@[i + m]);
        }
        i = i + 1;
    }
    false
}

} // verus!

verus! {

// ---------------------------------------------------------------------------
// Matching and slicing
// ---------------------------------------------------------------------------

/// Whether `b` occurs in `a` starting at position `start`.
pub fn matches_at(a: &[char], start: usize, b: &[char]) -> (r: bool)
    ensures
        r == (start + b@.len() <= a@.len() && a@.subrange(start as int, start + b@.len()) == b@),
{
    if start > a.len() || b.len() > a.len() - start {
        return false;
    }
    let mut i: usize = 0;
    while i < b.len()
        invariant
            i <= b.len(),
            start + b@.len() <= a@.len(),
            a@.len() == a.len(),
            forall|k: int| 0 <= k < i ==> a@[start + k] == b@[k],
        decreases b.len() - i,
    {
        if a[start + i] != b[i] {
            assert(a@.subrange(start as int, start + b@.len())[i as int] != b@[i as int]);
            return false;
        }
        i = i + 1;
    }
    assert(a@.subrange(start as int, start + b@.len()) =~= b@);
    true
}

/// The characters `a[from..to]` as a string.
pub fn slice_string(a: &[char], from: usize, to: usize) -> (r: String)
    requires
        from <= to <= a@.len(),
    ensures
        r@ == a@.subrange(from as int, to as int),
{
    let mut r = String::new();
    let mut i: usize = from;
    while i < to
        invariant
            from <= i <= to,
            to <= a@.len(),
            r@ == a@.subrange(from as int, i as int),
        decreases to - i,
    {
        append_char(&mut r, a[i]);
        assert(a@.subrange(from as int, i + 1) =~= a@.subrange(from as int, i as int).push(a@[i as int]));
        i = i + 1;
    }
    r
}

} // verus!

verus! {

/// A string result taken by its characters.
pub open spec fn result_chars(r: Result<String, String>) -> Result<Seq<char>, Seq<char>> {
    match r {
        Ok(s) => Ok(s@),
        Err(e) => Err(e@),
    }
}

} // verus!
