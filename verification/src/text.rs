//! Text the services build and read: ASCII case mapping, joining, and
//! decimal integers.
use vstd::prelude::*;

verus! {

/// `c` in upper case where it is an ASCII lower-case letter.
pub open spec fn ascii_upper(c: char) -> char {
    if 'a' <= c && c <= 'z' {
        ((c as u32) - 32) as char
    } else {
        c
    }
}

/// `c` in lower case where it is an ASCII upper-case letter.
pub open spec fn ascii_lower(c: char) -> char {
    if 'A' <= c && c <= 'Z' {
        ((c as u32) + 32) as char
    } else {
        c
    }
}

pub open spec fn upper_text(s: Seq<char>) -> Seq<char> {
    s.map_values(|c: char| ascii_upper(c))
}

pub open spec fn lower_text(s: Seq<char>) -> Seq<char> {
    s.map_values(|c: char| ascii_lower(c))
}

/// Upper-casing maps each ASCII lower-case letter `'a'..='z'` to the
/// character 32 code points below it (its upper-case form) and leaves every
/// other character as it is; no ASCII lower-case letter is left.
pub proof fn lemma_upper_text_law(s: Seq<char>)
    ensures
        upper_text(s).len() == s.len(),
        forall|i: int|
            0 <= i < s.len() && 'a' <= s[i] && s[i] <= 'z' ==> (#[trigger] upper_text(s)[i]) as u32 == (s[i] as u32)
                - 32,
        forall|i: int| 0 <= i < s.len() && !('a' <= s[i] && s[i] <= 'z') ==> #[trigger] upper_text(s)[i] == s[i],
        forall|i: int| 0 <= i < s.len() ==> !('a' <= #[trigger] upper_text(s)[i] && upper_text(s)[i] <= 'z'),
{
}

/// Lower-casing maps each ASCII upper-case letter `'A'..='Z'` to the
/// character 32 code points above it (its lower-case form) and leaves every
/// other character as it is; no ASCII upper-case letter is left.
pub proof fn lemma_lower_text_law(s: Seq<char>)
    ensures
        lower_text(s).len() == s.len(),
        forall|i: int|
            0 <= i < s.len() && 'A' <= s[i] && s[i] <= 'Z' ==> (#[trigger] lower_text(s)[i]) as u32 == (s[i] as u32)
                + 32,
        forall|i: int| 0 <= i < s.len() && !('A' <= s[i] && s[i] <= 'Z') ==> #[trigger] lower_text(s)[i] == s[i],
        forall|i: int| 0 <= i < s.len() ==> !('A' <= #[trigger] lower_text(s)[i] && lower_text(s)[i] <= 'Z'),
{
}

/// Whether `c` is one of the digits 0 to 9.
pub open spec fn is_digit(c: char) -> bool {
    '0' <= c && c <= '9'
}

/// The value of a string of decimal digits.
pub open spec fn digits_value(s: Seq<char>) -> nat
    decreases s.len(),
{
    if s.len() == 0 {
        0
    } else {
        (digits_value(s.drop_last()) * 10 + ((s.last() as u32) - ('0' as u32))) as nat
    }
}

/// The digits of a decimal integer: the text without one leading `+`.
pub open spec fn unsigned_digits(s: Seq<char>) -> Seq<char> {
    if s.len() > 0 && s[0] == '+' {
        s.drop_first()
    } else {
        s
    }
}

pub open spec fn all_digits(d: Seq<char>) -> bool {
    forall|i: int| 0 <= i < d.len() ==> is_digit(#[trigger] d[i])
}

/// What `str::parse::<u64>` gives: an optional `+` and then at least one
/// digit, and only digits, of a value that fits in 64 bits.
pub open spec fn parse_u64_spec(s: Seq<char>) -> Option<u64> {
    let d = unsigned_digits(s);
    if d.len() > 0 && all_digits(d) && digits_value(d) <= u64::MAX {
        Some(digits_value(d) as u64)
    } else {
        None
    }
}

/// Appends one character (`String::push`).
#[verifier::external_body]
fn push_char(s: &mut String, c: char)
    ensures
        final(s)@ == old(s)@.push(c),
{
    s.push(c)
}

fn upper_char(c: char) -> (r: char)
    ensures
        r == ascii_upper(c),
{
    if 'a' <= c && c <= 'z' {
        let code: u32 = (c as u32) - 32;
        proof {
            assert(0x41 <= code <= 0x5a);
        }
        let b: u8 = code as u8;
        b as char
    } else {
        c
    }
}

fn lower_char(c: char) -> (r: char)
    ensures
        r == ascii_lower(c),
{
    if 'A' <= c && c <= 'Z' {
        let code: u32 = (c as u32) + 32;
        let b: u8 = code as u8;
        b as char
    } else {
        c
    }
}

/// `s` with its ASCII letters in upper case (`str::to_ascii_uppercase`).
pub fn to_ascii_uppercase(s: &str) -> (r: String)
    ensures
        r@ == upper_text(s@),
        r@.len() == s@.len(),
        forall|i: int| 0 <= i < s@.len() && 'a' <= s@[i] && s@[i] <= 'z' ==> (#[trigger] r@[i]) as u32 == (s@[i] as u32) - 32,
        forall|i: int| 0 <= i < s@.len() && !('a' <= s@[i] && s@[i] <= 'z') ==> #[trigger] r@[i] == s@[i],
{
    proof {
        lemma_upper_text_law(s@);
    }
    let mut r = String::new();
    let n = s.unicode_len();
    for i in 0..n
        invariant
            n == s@.len(),
            r@ == upper_text(s@.take(i as int)),
    {
        let c = s.get_char(i);
        push_char(&mut r, upper_char(c));
        assert(upper_text(s@.take(i + 1)) =~= upper_text(s@.take(i as int)).push(ascii_upper(c)));
    }
    assert(s@.take(n as int) =~= s@);
    r
}

/// `s` with its ASCII letters in lower case (`str::to_ascii_lowercase`).
pub fn to_ascii_lowercase(s: &str) -> (r: String)
    ensures
        r@ == lower_text(s@),
        r@.len() == s@.len(),
        forall|i: int| 0 <= i < s@.len() && 'A' <= s@[i] && s@[i] <= 'Z' ==> (#[trigger] r@[i]) as u32 == (s@[i] as u32) + 32,
        forall|i: int| 0 <= i < s@.len() && !('A' <= s@[i] && s@[i] <= 'Z') ==> #[trigger] r@[i] == s@[i],
{
    proof {
        lemma_lower_text_law(s@);
    }
    let mut r = String::new();
    let n = s.unicode_len();
    for i in 0..n
        invariant
            n == s@.len(),
            r@ == lower_text(s@.take(i as int)),
    {
        let c = s.get_char(i);
        push_char(&mut r, lower_char(c));
        assert(lower_text(s@.take(i + 1)) =~= lower_text(s@.take(i as int)).push(ascii_lower(c)));
    }
    assert(s@.take(n as int) =~= s@);
    r
}

/// The concatenation of three strings.
pub fn join3(a: &str, b: &str, c: &str) -> (r: String)
    ensures
        r@ == a@ + b@ + c@,
{
    let mut r = String::from_str(a);
    r.append(b);
    r.append(c);
    r
}

proof fn lemma_digits_value_grows(s: Seq<char>, n: int)
    requires
        0 <= n <= s.len(),
        forall|i: int| 0 <= i < s.len() ==> is_digit(#[trigger] s[i]),
    ensures
        digits_value(s.take(n)) <= digits_value(s),
    decreases s.len() - n,
{
    if n < s.len() {
        lemma_digits_value_grows(s, n + 1);
        let t = s.take(n + 1);
        assert(t.drop_last() =~= s.take(n));
        assert(t.last() == s[n]);
        assert(is_digit(s[n]));
        assert(digits_value(t) == digits_value(s.take(n)) * 10 + ((s[n] as u32) - ('0' as u32)));
    } else {
        assert(s.take(n) =~= s);
    }
}

/// The value `str::parse::<u64>` gives for `s`; see `parse_u64_spec`.
pub fn parse_u64(s: &str) -> (r: Option<u64>)
    ensures
        r == parse_u64_spec(s@),
{
    let n = s.unicode_len();
    let start: usize = if n > 0 && s.get_char(0) == '+' {
        1
    } else {
        0
    };
    let ghost d = unsigned_digits(s@);
    if start == n {
        return None;
    }
    let mut value: u64 = 0;
    let mut i: usize = start;
    while i < n
        invariant
            start <= i <= n == s@.len(),
            start < n,
            d == s@.subrange(start as int, n as int),
            d == unsigned_digits(s@),
            forall|j: int| 0 <= j < i - start ==> is_digit(#[trigger] d[j]),
            value == digits_value(d.take(i - start)),
        decreases n - i,
    {
        let c = s.get_char(i);
        assert(c == d[i - start]);
        if !('0' <= c && c <= '9') {
            assert(!is_digit(d[i - start]));
            assert(!all_digits(d));
            return None;
        }
        let digit: u64 = ((c as u32) - ('0' as u32)) as u64;
        assert(d.take(i + 1 - start).drop_last() =~= d.take(i - start));
        assert(d.take(i + 1 - start).last() == c);
        assert(digits_value(d.take(i + 1 - start)) == value * 10 + digit);
        if value > (u64::MAX - digit) / 10 {
            proof {
                assert(value * 10 + digit > u64::MAX) by (nonlinear_arith)
                    requires
                        value > (u64::MAX - digit) / 10,
                        digit <= 9,
                ;
                assert forall|j: int| 0 <= j < i + 1 - start implies is_digit(#[trigger] d[j]) by {
                    if j == i - start {
                        assert(d[j] == c);
                    }
                }
                if all_digits(d) {
                    lemma_digits_value_grows(d, i + 1 - start);
                }
            }
            return None;
        }
        value = value * 10 + digit;
        i = i + 1;
    }
    assert(d.take(n - start) =~= d);
    Some(value)
}

} // verus!
