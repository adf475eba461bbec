//! Character-level text utilities: decimal parsing and printing, string
//! comparison and searching, and association lists keyed by strings.
//!
//! The log and counter formats this library decodes are line-oriented text,
//! so their numeric fields are parsed here, character by character, against
//! an explicit decimal interpretation.

use vstd::prelude::*;

verus! {

/// Whether `c` is an ASCII decimal digit.
pub open spec fn is_dec_digit(c: char) -> bool {
    48 <= c as u32 && c as u32 <= 57
}

/// The numeric value of a decimal digit character.
pub open spec fn digit_val(c: char) -> nat {
    (c as u32 - 48) as nat
}

/// Whether every character of `s` is a decimal digit.
pub open spec fn all_digits(s: Seq<char>) -> bool {
    forall|i: int| 0 <= i < s.len() ==> is_dec_digit(#[trigger] s[i])
}

/// The value of `s` read as a decimal numeral (most significant digit first).
pub open spec fn dec_value(s: Seq<char>) -> nat
    decreases s.len(),
{
    if s.len() == 0 {
        0
    } else {
        dec_value(s.drop_last()) * 10 + digit_val(s.last())
    }
}

/// Extending a digit string on the right multiplies its value by ten and
/// adds the new digit.
proof fn lemma_dec_value_step(s: Seq<char>, i: int)
    requires
        0 <= i < s.len(),
    ensures
        dec_value(s.subrange(0, i + 1)) == dec_value(s.subrange(0, i)) * 10 + digit_val(s[i]),
{
    let t = s.subrange(0, i + 1);
    assert(t.drop_last() =~= s.subrange(0, i));
    assert(t.last() == s[i]);
}

/// The value of a prefix never exceeds the value of the whole digit string.
proof fn lemma_dec_value_prefix_le(s: Seq<char>, i: int)
    requires
        0 <= i <= s.len(),
    ensures
        dec_value(s.subrange(0, i)) <= dec_value(s),
    decreases s.len() - i,
{
    if i == s.len() {
        assert(s.subrange(0, i) =~= s);
    } else {
        lemma_dec_value_step(s, i);
        lemma_dec_value_prefix_le(s, i + 1);
    }
}

/// Parses `s` as an unsigned decimal numeral.
///
/// Returns the value exactly when `s` is non-empty, consists of decimal
/// digits only, and its value fits in a `u64`.
pub fn parse_u64(s: &str) -> (r: Option<u64>)
    ensures
        r is Some <==> s@.len() > 0 && all_digits(s@) && dec_value(s@) <= u64::MAX,
        r matches Some(v) ==> v == dec_value(s@),
{
    let n = s.unicode_len();
    if n == 0 {
        return None;
    }
    let mut acc: u64 = 0;
    let mut i: usize = 0;
    while i < n
        invariant
            0 <= i <= n,
            n == s@.len(),
            all_digits(s@.subrange(0, i as int)),
            acc == dec_value(s@.subrange(0, i as int)),
        decreases n - i,
    {
        let c = s.get_char(i);
        let cv = c as u32;
        if !(48 <= cv && cv <= 57) {
            assert(!is_dec_digit(s@[i as int]));
            return None;
        }
        let d: u64 = (cv - 48) as u64;
        proof {
            lemma_dec_value_step(s@, i as int);
        }
        if acc > (u64::MAX - d) / 10 {
            proof {
                assert(dec_value(s@.subrange(0, i as int + 1)) > u64::MAX);
                lemma_dec_value_prefix_le(s@, i as int + 1);
            }
            return None;
        }
        acc = acc * 10 + d;
        i = i + 1;
        assert(s@.subrange(0, i as int).drop_last() =~= s@.subrange(0, i as int - 1));
    }
    assert(s@.subrange(0, n as int) =~= s@);
    Some(acc)
}

/// The character for a decimal digit value.
pub open spec fn digit_char(d: nat) -> char {
    ((d + 48) as u32) as char
}

/// The decimal numeral of `n`, most significant digit first, no leading
/// zeros (except for the numeral of zero itself).
pub open spec fn dec_digits(n: nat) -> Seq<char>
    decreases n,
{
    if n < 10 {
        seq![digit_char(n)]
    } else {
        dec_digits(n / 10).push(digit_char(n % 10))
    }
}

/// Relies on `String::push`: appends exactly the given character.
#[verifier::external_body]
pub fn push_char(s: &mut String, c: char)
    ensures
        final(s)@ == old(s)@.push(c),
{
    s.push(c)
}

/// Renders `n` as its decimal numeral.
pub fn u64_to_string(n: u64) -> (r: String)
    ensures
        r@ == dec_digits(n as nat),
{
    let mut digits: Vec<char> = Vec::new();
    let mut m: u64 = n;
    proof {
        assert(dec_digits(n as nat) =~= dec_digits(n as nat) + digits@.reverse());
    }
    loop
        invariant_except_break
            dec_digits(n as nat) == dec_digits(m as nat) + digits@.reverse(),
        ensures
            dec_digits(n as nat) == digits@.reverse(),
        decreases m,
    {
        let d: u64 = m % 10;
        let c: char = ((d + 48) as u8) as char;
        proof {
            let prev = digits@;
            assert(c == digit_char((m % 10) as nat));
            assert(prev.push(c).reverse() =~= seq![c] + prev.reverse());
            if m < 10 {
                assert(dec_digits(m as nat) == seq![c]);
                assert(dec_digits(n as nat) =~= prev.push(c).reverse());
            } else {
                assert(dec_digits(m as nat) == dec_digits((m / 10) as nat).push(c));
                assert(dec_digits((m / 10) as nat).push(c) =~= dec_digits((m / 10) as nat)
                    + seq![c]);
                assert(dec_digits(n as nat) =~= dec_digits((m / 10) as nat) + prev.push(
                    c,
                ).reverse());
            }
        }
        digits.push(c);
        if m < 10 {
            break;
        }
        m = m / 10;
    }
    let mut r = String::new();
    let mut i: usize = digits.len();
    proof {
        assert(digits@.subrange(0, i as int) =~= digits@);
        assert(r@ + digits@.subrange(0, i as int).reverse() =~= dec_digits(n as nat));
    }
    while i > 0
        invariant
            0 <= i <= digits@.len(),
            r@ + digits@.subrange(0, i as int).reverse() == dec_digits(n as nat),
        decreases i,
    {
        i = i - 1;
        let c = digits[i];
        push_char(&mut r, c);
        proof {
            assert(digits@.subrange(0, i as int + 1).reverse() =~= seq![digits@[i as int]]
                + digits@.subrange(0, i as int).reverse());
            assert(r@ + digits@.subrange(0, i as int).reverse() =~= dec_digits(n as nat));
        }
    }
    proof {
        assert(digits@.subrange(0, 0).reverse() =~= Seq::<char>::empty());
        assert(r@ =~= r@ + digits@.subrange(0, 0).reverse());
    }
    r
}

/// Whether two strings hold the same characters.
pub fn str_eq(a: &str, b: &str) -> (r: bool)
    ensures
        r == (a@ == b@),
{
    let na = a.unicode_len();
    let nb = b.unicode_len();
    if na != nb {
        return false;
    }
    let mut i: usize = 0;
    while i < na
        invariant
            0 <= i <= na,
            na == a@.len(),
            na == b@.len(),
            forall|j: int| 0 <= j < i ==> a@[j] == b@[j],
        decreases na - i,
    {
        if a.get_char(i) != b.get_char(i) {
            return false;
        }
        i = i + 1;
    }
    proof {
        assert(a@ =~= b@);
    }
    true
}

/// The signed value parsed from `s`: an optional leading minus sign, then
/// decimal digits, within the range of `i32`.
pub open spec fn parse_i32_spec(s: Seq<char>) -> Option<int> {
    if s.len() > 0 && s[0] == '-' {
        let d = s.drop_first();
        if d.len() > 0 && all_digits(d) && dec_value(d) <= 0x8000_0000 {
            Some(-(dec_value(d) as int))
        } else {
            None
        }
    } else if s.len() > 0 && all_digits(s) && dec_value(s) <= 0x7fff_ffff {
        Some(dec_value(s) as int)
    } else {
        None
    }
}

/// Parses `s` as a signed decimal numeral in the range of `i32`.
pub fn parse_i32(s: &str) -> (r: Option<i32>)
    ensures
        match r {
            Some(v) => parse_i32_spec(s@) == Some(v as int),
            None => parse_i32_spec(s@) is None,
        },
{
    let n = s.unicode_len();
    if n == 0 {
        return None;
    }
    if s.get_char(0) == '-' {
        let digits = s.substring_char(1, n);
        proof {
            assert(digits@ =~= s@.drop_first());
        }
        match parse_u64(digits) {
            Some(m) => {
                if m <= 0x8000_0000 {
                    let v: i32 = (0i64 - (m as i64)) as i32;
                    Some(v)
                } else {
                    None
                }
            },
            None => None,
        }
    } else {
        match parse_u64(s) {
            Some(m) => {
                if m <= 0x7fff_ffff {
                    Some(m as i32)
                } else {
                    None
                }
            },
            None => None,
        }
    }
}

/// The index of the first occurrence of `c` in `s`, if any.
pub open spec fn index_of_first(s: Seq<char>, c: char) -> Option<int>
    decreases s.len(),
{
    if s.len() == 0 {
        None
    } else if s[0] == c {
        Some(0)
    } else {
        match index_of_first(s.drop_first(), c) {
            Some(i) => Some(i + 1),
            None => None,
        }
    }
}

/// `index_of_first` returns the least index holding `c`, or reports that
/// no index does.
pub proof fn lemma_index_of_first(s: Seq<char>, c: char)
    ensures
        match index_of_first(s, c) {
            Some(i) => 0 <= i < s.len() && s[i] == c && forall|j: int| 0 <= j < i ==> s[j] != c,
            None => forall|j: int| 0 <= j < s.len() ==> s[j] != c,
        },
    decreases s.len(),
{
    if s.len() > 0 && s[0] != c {
        lemma_index_of_first(s.drop_first(), c);
        match index_of_first(s.drop_first(), c) {
            Some(i0) => {
                assert forall|j: int| 0 <= j < i0 + 1 implies s[j] != c by {
                    if j > 0 {
                        assert(s.drop_first()[j - 1] == s[j]);
                    }
                }
            },
            None => {
                assert forall|j: int| 0 <= j < s.len() implies s[j] != c by {
                    if j > 0 {
                        assert(s.drop_first()[j - 1] == s[j]);
                    }
                }
            },
        }
    }
}

/// Finds the first occurrence of `c` in `s`.
pub fn find_char(s: &str, c: char) -> (r: Option<usize>)
    ensures
        match r {
            Some(i) => index_of_first(s@, c) == Some(i as int),
            None => index_of_first(s@, c) is None,
        },
{
    let n = s.unicode_len();
    let mut i: usize = 0;
    proof {
        lemma_index_of_first(s@, c);
    }
    while i < n
        invariant
            0 <= i <= n,
            n == s@.len(),
            forall|j: int| 0 <= j < i ==> s@[j] != c,
            match index_of_first(s@, c) {
                Some(k) => 0 <= k < s@.len() && s@[k] == c && forall|j: int|
                    0 <= j < k ==> s@[j] != c,
                None => forall|j: int| 0 <= j < s@.len() ==> s@[j] != c,
            },
        decreases n - i,
    {
        if s.get_char(i) == c {
            return Some(i);
        }
        i = i + 1;
    }
    None
}

/// Copies a string slice into an owned string.
pub fn to_owned_string(s: &str) -> (r: String)
    ensures
        r@ == s@,
{
    String::from_str(s)
}

/// Splits `s` at the first occurrence of `c`: the part before and the part
/// after, the separator itself in neither.
pub fn split_once_char(s: &str, c: char) -> (r: Option<(String, String)>)
    ensures
        match r {
            Some((before, after)) => {
                &&& index_of_first(s@, c) matches Some(i)
                &&& before@ == s@.subrange(0, index_of_first(s@, c)->Some_0)
                &&& after@ == s@.subrange(index_of_first(s@, c)->Some_0 + 1, s@.len() as int)
            },
            None => index_of_first(s@, c) is None,
        },
{
    let n = s.unicode_len();
    proof {
        lemma_index_of_first(s@, c);
    }
    match find_char(s, c) {
        Some(i) => {
            let before = to_owned_string(s.substring_char(0, i));
            let after = to_owned_string(s.substring_char(i + 1, n));
            Some((before, after))
        },
        None => None,
    }
}

/// Lexicographic order on character sequences, by code point.
pub open spec fn lex_le(a: Seq<char>, b: Seq<char>) -> bool
    decreases a.len(),
{
    if a.len() == 0 {
        true
    } else if b.len() == 0 {
        false
    } else if (a[0] as u32) != (b[0] as u32) {
        (a[0] as u32) < (b[0] as u32)
    } else {
        lex_le(a.drop_first(), b.drop_first())
    }
}

/// Dropping an equal prefix from both sides leaves the order unchanged.
proof fn lemma_lex_le_skip(a: Seq<char>, b: Seq<char>, i: int)
    requires
        0 <= i <= a.len(),
        i <= b.len(),
        forall|j: int| 0 <= j < i ==> (#[trigger] a[j] as u32) == (b[j] as u32),
    ensures
        lex_le(a, b) == lex_le(a.skip(i), b.skip(i)),
    decreases i,
{
    if i > 0 {
        assert(a.skip(0) =~= a);
        assert(b.skip(0) =~= b);
        assert(a.drop_first().skip(i - 1) =~= a.skip(i));
        assert(b.drop_first().skip(i - 1) =~= b.skip(i));
        lemma_lex_le_skip(a.drop_first(), b.drop_first(), i - 1);
    } else {
        assert(a.skip(0) =~= a);
        assert(b.skip(0) =~= b);
    }
}

/// Decides `lex_le(a@, b@)`.
pub fn str_le(a: &str, b: &str) -> (r: bool)
    ensures
        r == lex_le(a@, b@),
{
    let na = a.unicode_len();
    let nb = b.unicode_len();
    let min: usize = if na < nb {
        na
    } else {
        nb
    };
    let mut i: usize = 0;
    while i < min
        invariant
            0 <= i <= min,
            na == a@.len(),
            nb == b@.len(),
            min == if na < nb {
                na
            } else {
                nb
            },
            forall|j: int| 0 <= j < i ==> (#[trigger] a@[j] as u32) == (b@[j] as u32),
        decreases min - i,
    {
        let ca = a.get_char(i) as u32;
        let cb = b.get_char(i) as u32;
        if ca != cb {
            proof {
                lemma_lex_le_skip(a@, b@, i as int);
            }
            return ca < cb;
        }
        i = i + 1;
    }
    proof {
        lemma_lex_le_skip(a@, b@, min as int);
    }
    na <= nb
}

/// Ten to the `n`-th power.
pub open spec fn pow10(n: nat) -> nat
    decreases n,
{
    if n == 0 {
        1
    } else {
        10 * pow10((n - 1) as nat)
    }
}

/// A digit string's value is below ten to the power of its length.
proof fn lemma_dec_value_bound(s: Seq<char>)
    requires
        all_digits(s),
    ensures
        dec_value(s) < pow10(s.len()),
    decreases s.len(),
{
    if s.len() > 0 {
        assert(all_digits(s.drop_last())) by {
            assert(forall|i: int| 0 <= i < s.len() - 1 ==> s.drop_last()[i] == #[trigger] s[i]);
        }
        lemma_dec_value_bound(s.drop_last());
        assert(digit_val(s.last()) <= 9);
        assert(pow10(s.len()) == 10 * pow10((s.len() - 1) as nat));
    }
}

/// The fractional digit string `fd`, read to `scale` decimal places:
/// truncated if longer, padded with zeros if shorter.
pub open spec fn scaled_frac(fd: Seq<char>, scale: nat) -> nat {
    if fd.len() >= scale {
        dec_value(fd.take(scale as int))
    } else {
        dec_value(fd) * pow10((scale - fd.len()) as nat)
    }
}

/// How many decimal places of fraction, and how many nanoseconds per whole
/// unit, each duration unit carries: seconds, milliseconds, microseconds,
/// nanoseconds.
pub open spec fn unit_scale(unit: Seq<char>) -> Option<nat> {
    if unit == "s"@ {
        Some(9)
    } else if unit == "ms"@ {
        Some(6)
    } else if unit == "us"@ || unit == seq!['\u{b5}', 's'] {
        Some(3)
    } else if unit == "ns"@ {
        Some(0)
    } else {
        None
    }
}

/// The length of the longest prefix of `s` made of digits and dots.
pub open spec fn num_prefix_len(s: Seq<char>) -> int
    decreases s.len(),
{
    if s.len() == 0 {
        0
    } else if is_dec_digit(s[0]) || s[0] == '.' {
        1 + num_prefix_len(s.drop_first())
    } else {
        0
    }
}

proof fn lemma_num_prefix_len(s: Seq<char>)
    ensures
        0 <= num_prefix_len(s) <= s.len(),
        forall|i: int|
            0 <= i < num_prefix_len(s) ==> is_dec_digit(#[trigger] s[i]) || s[i] == '.',
        num_prefix_len(s) < s.len() ==> !(is_dec_digit(s[num_prefix_len(s)])
            || s[num_prefix_len(s)] == '.'),
    decreases s.len(),
{
    if s.len() > 0 && (is_dec_digit(s[0]) || s[0] == '.') {
        lemma_num_prefix_len(s.drop_first());
        assert forall|i: int| 0 <= i < num_prefix_len(s) implies is_dec_digit(#[trigger] s[i])
            || s[i] == '.' by {
            if i > 0 {
                assert(s.drop_first()[i - 1] == s[i]);
            }
        }
        if num_prefix_len(s) < s.len() {
            assert(s.drop_first()[num_prefix_len(s) - 1] == s[num_prefix_len(s)]);
        }
    }
}

/// The duration in whole nanoseconds denoted by `s`, a decimal number
/// immediately followed by a unit (`s`, `ms`, `us` or its mu-spelled
/// variant, `ns`). The number may carry one dot and at least one digit;
/// fractional nanoseconds are truncated. A missing or unknown unit, a
/// malformed number, or a value beyond `u64` denotes nothing.
pub open spec fn duration_ns_of(s: Seq<char>) -> Option<u64> {
    let nl = num_prefix_len(s);
    let num = s.take(nl);
    let unit = s.skip(nl);
    match unit_scale(unit) {
        None => None,
        Some(scale) => {
            let parts = match index_of_first(num, '.') {
                None => Some((num, Seq::<char>::empty())),
                Some(i) => {
                    let ip = num.take(i);
                    let fp = num.skip(i + 1);
                    if all_digits(fp) {
                        Some((ip, fp))
                    } else {
                        None
                    }
                },
            };
            match parts {
                None => None,
                Some((ip, fp)) => {
                    if all_digits(ip) && ip.len() + fp.len() > 0 {
                        let v = dec_value(ip) * pow10(scale) + scaled_frac(fp, scale);
                        if v <= u64::MAX {
                            Some(v as u64)
                        } else {
                            None
                        }
                    } else {
                        None
                    }
                },
            }
        },
    }
}

/// `a * m` stays within `x` exactly when `a` is within `x / m`.
proof fn lemma_mul_le_div(a: nat, m: nat, x: nat)
    requires
        m > 0,
    ensures
        (a * m <= x) == (a <= x / m),
{
    vstd::arithmetic::div_mod::lemma_fundamental_div_mod(x as int, m as int);
    if a <= x / m {
        assert(a * m <= (x / m) * m) by (nonlinear_arith)
            requires
                a <= x / m,
                m > 0,
        ;
        assert((x / m) * m <= x) by (nonlinear_arith)
            requires
                x == m * (x / m) + x % m,
                x % m >= 0,
        ;
    }
    if a > x / m {
        assert(a * m >= (x / m + 1) * m) by (nonlinear_arith)
            requires
                a >= x / m + 1,
                m > 0,
        ;
        assert((x / m + 1) * m == m * (x / m) + m) by (nonlinear_arith);
        assert(m * (x / m) + m > x);
    }
}

/// Powers of ten do not shrink as the exponent grows.
proof fn lemma_pow10_mono(a: nat, b: nat)
    requires
        a <= b,
    ensures
        pow10(a) <= pow10(b),
        pow10(a) >= 1,
    decreases b,
{
    if a == b {
        if a > 0 {
            lemma_pow10_mono((a - 1) as nat, (a - 1) as nat);
            assert(pow10(a) == 10 * pow10((a - 1) as nat));
        }
    } else {
        lemma_pow10_mono(a, (b - 1) as nat);
        assert(pow10(b) == 10 * pow10((b - 1) as nat));
    }
}

/// Ten to the `scale`-th power, executable.
#[verifier::loop_isolation(false)]
fn pow10_u64(scale: u64) -> (r: u64)
    requires
        scale <= 9,
    ensures
        r == pow10(scale as nat),
        r >= 1,
{
    proof {
        lemma_pow10_le_9(9);
    }
    let mut r: u64 = 1;
    let mut i: u64 = 0;
    while i < scale
        invariant
            0 <= i <= scale,
            r == pow10(i as nat),
        decreases scale - i,
    {
        proof {
            lemma_pow10_mono((i + 1) as nat, 9);
            assert(pow10((i + 1) as nat) == 10 * pow10(i as nat));
        }
        r = r * 10;
        i = i + 1;
    }
    proof {
        lemma_pow10_mono(scale as nat, scale as nat);
    }
    r
}

/// Checks whether `unit` is the mu-spelled microseconds unit.
fn is_mu_seconds(unit: &str) -> (r: bool)
    ensures
        r == (unit@ == seq!['\u{b5}', 's']),
{
    if unit.unicode_len() != 2 {
        proof {
            assert(unit@ != seq!['\u{b5}', 's']);
        }
        return false;
    }
    let r = unit.get_char(0) == '\u{b5}' && unit.get_char(1) == 's';
    proof {
        if unit@[0] == '\u{b5}' && unit@[1] == 's' {
            assert(unit@ =~= seq!['\u{b5}', 's']);
        }
    }
    r
}

/// Parses a human-readable duration `<number><unit>` into whole
/// nanoseconds, exactly as `duration_ns_of` describes.
#[verifier::loop_isolation(false)]
#[verifier::rlimit(60)]
pub fn parse_duration_ns(s: &str) -> (r: Option<u64>)
    ensures
        r == duration_ns_of(s@),
{
    let n = s.unicode_len();
    proof {
        lemma_num_prefix_len(s@);
    }
    let mut nl: usize = 0;
    while nl < n
        invariant
            0 <= nl <= n,
            n == s@.len(),
            forall|j: int| 0 <= j < nl ==> is_dec_digit(#[trigger] s@[j]) || s@[j] == '.',
            nl <= num_prefix_len(s@),
        decreases n - nl,
    {
        let c = s.get_char(nl);
        let cv = c as u32;
        if !(48 <= cv && cv <= 57) && c != '.' {
            proof {
                assert(!(is_dec_digit(s@[nl as int]) || s@[nl as int] == '.'));
                assert(nl == num_prefix_len(s@));
            }
            break ;
        }
        proof {
            if nl as int == num_prefix_len(s@) {
                assert(false);
            }
        }
        nl = nl + 1;
    }
    proof {
        assert(nl == num_prefix_len(s@));
    }
    let unit = s.substring_char(nl, n);
    proof {
        assert(unit@ =~= s@.skip(nl as int));
    }
    let scale: u64 = if str_eq(unit, "s") {
        9
    } else if str_eq(unit, "ms") {
        6
    } else if str_eq(unit, "us") {
        3
    } else if is_mu_seconds(unit) {
        3
    } else if str_eq(unit, "ns") {
        0
    } else {
        proof {
            assert(unit_scale(s@.skip(num_prefix_len(s@))) is None);
        }
        return None;
    };
    proof {
        assert(unit_scale(s@.skip(num_prefix_len(s@))) == Some(scale as nat));
    }
    let num = s.substring_char(0, nl);
    proof {
        assert(num@ =~= s@.take(nl as int));
        lemma_index_of_first(num@, '.');
    }
    let (ip, fp): (String, String) = match split_once_char(num, '.') {
        Some((before, after)) => (before, after),
        None => (to_owned_string(num), to_owned_string("")),
    };
    proof {
        reveal_strlit("");
        match index_of_first(num@, '.') {
            Some(i) => {
                assert(ip@ == num@.take(i));
                assert(fp@ == num@.skip(i + 1)) by {
                    assert(num@.subrange(i + 1, num@.len() as int) =~= num@.skip(i + 1));
                }
            },
            None => {
                assert(ip@ == num@ && fp@ =~= Seq::<char>::empty());
            },
        }
    }
    // the whole fractional part must be digits, not only the kept places
    let fplen = fp.as_str().unicode_len();
    let mut j: usize = 0;
    while j < fplen
        invariant
            0 <= j <= fplen,
            fplen == fp@.len(),
            forall|k: int| 0 <= k < j ==> is_dec_digit(#[trigger] fp@[k]),
        decreases fplen - j,
    {
        let c = fp.as_str().get_char(j);
        let cv = c as u32;
        if !(48 <= cv && cv <= 57) {
            proof {
                assert(!is_dec_digit(fp@[j as int]));
                assert(!all_digits(fp@));
            }
            return None;
        }
        j = j + 1;
    }
    assert(all_digits(fp@));
    let iplen = ip.as_str().unicode_len();
    if iplen == 0 && fplen == 0 {
        return None;
    }
    // integer part: empty means zero; non-digits or overflow reject
    let iv: u64 = if iplen == 0 {
        0
    } else {
        match parse_u64(ip.as_str()) {
            Some(v) => v,
            None => {
                proof {
                    if all_digits(ip@) {
                        // the integer part alone already exceeds u64
                        assert(dec_value(ip@) > u64::MAX);
                        assert(scale <= 9);
                        lemma_pow10_le_9(scale as nat);
                        assert(pow10(scale as nat) >= 1);
                        assert(dec_value(ip@) * pow10(scale as nat) >= dec_value(ip@) * 1)
                            by (nonlinear_arith)
                            requires
                                pow10(scale as nat) >= 1,
                        ;
                    }
                }
                return None;
            },
        }
    };
    assert(iv == dec_value(ip@));
    // fractional part, read to `scale` places
    let take: usize = if fplen < scale as usize {
        fplen
    } else {
        scale as usize
    };
    let mut frac: u64 = 0;
    let mut k: usize = 0;
    proof {
        assert(fp@.take(0) =~= Seq::<char>::empty());
    }
    while k < take
        invariant
            0 <= k <= take,
            take <= fplen,
            take <= scale <= 9,
            fplen == fp@.len(),
            all_digits(fp@),
            frac == dec_value(fp@.take(k as int)),
            frac < pow10(k as nat),
        decreases take - k,
    {
        let c = fp.as_str().get_char(k);
        let d: u64 = (c as u32 - 48) as u64;
        proof {
            assert(fp@.take(k as int + 1).drop_last() =~= fp@.take(k as int));
            assert(fp@.take(k as int + 1).last() == fp@[k as int]);
            assert(pow10((k + 1) as nat) == 10 * pow10(k as nat));
            lemma_pow10_le_9((k + 1) as nat);
        }
        frac = frac * 10 + d;
        k = k + 1;
    }
    let frac_scaled: u64 = if fplen < scale as usize {
        let p = pow10_u64(scale - fplen as u64);
        proof {
            lemma_dec_value_bound(fp@.take(fplen as int));
            assert(fp@.take(fplen as int) =~= fp@);
            assert(frac * p < pow10(fplen as nat) * pow10((scale as nat - fplen) as nat))
                by (nonlinear_arith)
                requires
                    frac < pow10(fplen as nat),
                    p == pow10((scale as nat - fplen) as nat),
                    p >= 1,
            ;
            lemma_pow10_add(fplen as nat, (scale as nat - fplen) as nat);
            assert(pow10(scale as nat) <= 1000000000) by {
                lemma_pow10_le_9(scale as nat);
            }
        }
        frac * p
    } else {
        proof {
            assert(fp@.take(take as int) =~= fp@.take(scale as int));
        }
        frac
    };
    proof {
        assert(frac_scaled == scaled_frac(fp@, scale as nat));
        assert(frac_scaled < pow10(scale as nat)) by {
            if fplen < scale as usize {
            } else {
                lemma_dec_value_bound(fp@.take(scale as int));
                assert(fp@.take(scale as int).len() == scale as nat);
            }
            lemma_pow10_le_9(scale as nat);
        }
    }
    let mult = pow10_u64(scale);
    proof {
        lemma_pow10_le_9(scale as nat);
        lemma_mul_le_div(iv as nat, mult as nat, (u64::MAX - frac_scaled) as nat);
    }
    if iv > (u64::MAX - frac_scaled) / mult {
        proof {
            assert(iv * mult > u64::MAX - frac_scaled);
            assert(dec_value(ip@) * pow10(scale as nat) + scaled_frac(fp@, scale as nat)
                > u64::MAX);
        }
        return None;
    }
    proof {
        assert(iv * mult <= u64::MAX - frac_scaled);
    }
    Some(iv * mult + frac_scaled)
}

/// Powers of ten split over a sum of exponents.
proof fn lemma_pow10_add(a: nat, b: nat)
    ensures
        pow10(a) * pow10(b) == pow10(a + b),
    decreases a,
{
    if a == 0 {
        assert(pow10(0) * pow10(b) == pow10(b)) by (nonlinear_arith)
            requires
                pow10(0) == 1,
        ;
    } else {
        lemma_pow10_add((a - 1) as nat, b);
        assert(pow10(a) * pow10(b) == 10 * (pow10((a - 1) as nat) * pow10(b)))
            by (nonlinear_arith)
            requires
                pow10(a) == 10 * pow10((a - 1) as nat),
        ;
    }
}

/// Ten to at most the ninth power stays within a `u64`.
proof fn lemma_pow10_le_9(n: nat)
    requires
        n <= 9,
    ensures
        pow10(n) <= 1000000000,
        pow10(n) >= 1,
{
    lemma_pow10_mono(n, 9);
    assert(pow10(9) == 1000000000) by {
        reveal_with_fuel(pow10, 11);
    }
}

/// Any two character sequences compare one way or the other.
pub proof fn lemma_lex_le_total(a: Seq<char>, b: Seq<char>)
    ensures
        lex_le(a, b) || lex_le(b, a),
    decreases a.len(),
{
    if a.len() > 0 && b.len() > 0 && (a[0] as u32) == (b[0] as u32) {
        lemma_lex_le_total(a.drop_first(), b.drop_first());
    }
}

/// Lexicographic order chains.
pub proof fn lemma_lex_le_trans(a: Seq<char>, b: Seq<char>, c: Seq<char>)
    requires
        lex_le(a, b),
        lex_le(b, c),
    ensures
        lex_le(a, c),
    decreases a.len(),
{
    if a.len() > 0 && b.len() > 0 && c.len() > 0 && (a[0] as u32) == (b[0] as u32) && (b[0] as u32)
        == (c[0] as u32) {
        lemma_lex_le_trans(a.drop_first(), b.drop_first(), c.drop_first());
    }
}

/// Whether the entries are in non-decreasing key order.
pub open spec fn pairs_sorted_by_key(s: Seq<(String, String)>) -> bool {
    forall|i: int, j: int|
        0 <= i < j < s.len() ==> lex_le(#[trigger] s[i].0@, #[trigger] s[j].0@)
}

/// Where a stable insertion puts an entry: directly after every entry
/// with a key that orders at or before its own.
pub open spec fn pair_insert_pos(sorted: Seq<(String, String)>, x: (String, String)) -> int
    decreases sorted.len(),
{
    if sorted.len() == 0 {
        0
    } else if !lex_le(sorted[0].0@, x.0@) {
        0
    } else {
        1 + pair_insert_pos(sorted.drop_first(), x)
    }
}

proof fn lemma_pair_insert_pos(sorted: Seq<(String, String)>, x: (String, String))
    ensures
        0 <= pair_insert_pos(sorted, x) <= sorted.len(),
        forall|j: int|
            0 <= j < pair_insert_pos(sorted, x) ==> lex_le((#[trigger] sorted[j]).0@, x.0@),
        pair_insert_pos(sorted, x) < sorted.len() ==> !lex_le(
            sorted[pair_insert_pos(sorted, x)].0@,
            x.0@,
        ),
    decreases sorted.len(),
{
    if sorted.len() > 0 && lex_le(sorted[0].0@, x.0@) {
        lemma_pair_insert_pos(sorted.drop_first(), x);
        let ip = pair_insert_pos(sorted, x);
        assert forall|j: int| 0 <= j < ip implies lex_le((#[trigger] sorted[j]).0@, x.0@) by {
            if j > 0 {
                assert(sorted.drop_first()[j - 1] == sorted[j]);
            }
        }
        if ip < sorted.len() {
            assert(sorted.drop_first()[ip - 1] == sorted[ip]);
        }
    }
}

/// The stable sort of an entry sequence by key: each entry in turn
/// inserted after every already-placed entry whose key orders at or
/// before its own, so entries with equal keys keep their input order.
pub open spec fn stable_sorted_pairs(s: Seq<(String, String)>) -> Seq<(String, String)>
    decreases s.len(),
{
    if s.len() == 0 {
        s
    } else {
        let sorted = stable_sorted_pairs(s.drop_last());
        sorted.insert(pair_insert_pos(sorted, s.last()), s.last())
    }
}

/// Sorts the entries by key, lexicographically; an entry never moves past
/// one with an equal key, so the original order of equal keys is kept.
#[verifier::loop_isolation(false)]
pub fn sort_pairs_by_key(v: Vec<(String, String)>) -> (r: Vec<(String, String)>)
    ensures
        r@ == stable_sorted_pairs(v@),
        pairs_sorted_by_key(r@),
        r@.to_multiset() == v@.to_multiset(),
        r@.len() == v@.len(),
{
    broadcast use vstd::seq_lib::group_to_multiset_ensures;

    let ghost orig = v@;
    let mut rest = v;
    let mut out: Vec<(String, String)> = Vec::new();
    proof {
        assert(out@.to_multiset().add(rest@.to_multiset()) =~= orig.to_multiset());
        assert(rest@ =~= orig.skip(0));
        assert(out@ =~= stable_sorted_pairs(orig.subrange(0, 0)));
    }
    while rest.len() > 0
        invariant
            pairs_sorted_by_key(out@),
            out@.to_multiset().add(rest@.to_multiset()) == orig.to_multiset(),
            out@.len() + rest@.len() == orig.len(),
            rest@ == orig.skip(orig.len() - rest@.len()),
            out@ == stable_sorted_pairs(orig.subrange(0, orig.len() - rest@.len())),
        decreases rest@.len(),
    {
        let ghost k = orig.len() - rest@.len();
        let ghost rest0 = rest@;
        let x = rest.remove(0);
        proof {
            assert(rest0.remove(0) =~= rest0.drop_first());
            assert(rest0[0] == x);
            assert(rest0.drop_first().to_multiset().insert(x) =~= rest0.to_multiset()) by {
                assert(rest0.remove(0).to_multiset() =~= rest0.to_multiset().remove(x));
            }
        }
        // first position whose key orders strictly after the new entry
        let n = out.len();
        let mut pos: usize = 0;
        while pos < n && str_le(out[pos].0.as_str(), x.0.as_str())
            invariant
                0 <= pos <= n,
                n == out@.len(),
                forall|j: int| 0 <= j < pos ==> lex_le(#[trigger] out@[j].0@, x.0@),
            decreases n - pos,
        {
            pos = pos + 1;
        }
        proof {
            if pos < n {
                lemma_lex_le_total(out@[pos as int].0@, x.0@);
            }
        }
        let ghost out0 = out@;
        out.insert(pos, x);
        proof {
            assert(out@ == out0.insert(pos as int, x));
            assert(out@[pos as int] == x);
            assert(out@.remove(pos as int) =~= out0);
            assert(out@.to_multiset().remove(x) =~= out0.to_multiset()) by {
                assert(out@.remove(pos as int).to_multiset() =~= out@.to_multiset().remove(x));
            }
            assert(out@.to_multiset().count(x) > 0) by {
                assert(out@.contains(x)) by {
                    assert(out@[pos as int] == x);
                }
            }
            assert(out@.to_multiset() =~= out0.to_multiset().insert(x));
            assert(pairs_sorted_by_key(out@)) by {
                assert forall|i: int, j: int| 0 <= i < j < out@.len() implies lex_le(
                    #[trigger] out@[i].0@,
                    #[trigger] out@[j].0@,
                ) by {
                    if j == pos {
                        assert(out@[i] == out0[i] && out@[j] == x);
                    } else if i == pos {
                        assert(out@[i] == x && out@[j] == out0[j - 1]);
                        assert(pos < out0.len());
                        assert(!lex_le(out0[pos as int].0@, x.0@));
                        lemma_lex_le_total(out0[pos as int].0@, x.0@);
                        if j - 1 > pos {
                            lemma_lex_le_trans(x.0@, out0[pos as int].0@, out0[j - 1].0@);
                        }
                    } else if i < pos && j < pos {
                        assert(out@[i] == out0[i] && out@[j] == out0[j]);
                    } else if i < pos {
                        assert(out@[i] == out0[i] && out@[j] == out0[j - 1]);
                    } else {
                        assert(out@[i] == out0[i - 1] && out@[j] == out0[j - 1]);
                    }
                }
            }
            assert(out@.to_multiset().add(rest@.to_multiset()) =~= orig.to_multiset()) by {
                assert(out0.to_multiset().insert(x).add(rest0.drop_first().to_multiset())
                    =~= out0.to_multiset().add(rest0.drop_first().to_multiset().insert(x)));
            }
            // the scan found exactly the stable insertion point
            lemma_pair_insert_pos(out0, x);
            assert(pos as int == pair_insert_pos(out0, x)) by {
                let ip = pair_insert_pos(out0, x);
                if pos < ip {
                    assert(lex_le(out0[pos as int].0@, x.0@));
                } else if pos > ip {
                    assert(lex_le(out0[ip].0@, x.0@));
                }
            }
            assert(rest0[0] == orig[k]) by {
                assert(orig.skip(k)[0] == orig[k]);
            }
            assert(orig.subrange(0, k + 1).drop_last() =~= orig.subrange(0, k));
            assert(orig.subrange(0, k + 1).last() == orig[k]);
            assert(out@ == stable_sorted_pairs(orig.subrange(0, k + 1)));
            assert(rest@ =~= orig.skip(k + 1)) by {
                assert(orig.skip(k).drop_first() =~= orig.skip(k + 1));
            }
        }
    }
    proof {
        assert(rest@.to_multiset().len() == 0);
        assert(out@.to_multiset().add(rest@.to_multiset()) =~= out@.to_multiset());
        assert(orig.subrange(0, orig.len() as int) =~= orig);
    }
    out
}

/// The value bound to the first occurrence of `key` in an association list.
pub open spec fn assoc_get(entries: Seq<(String, String)>, key: Seq<char>) -> Option<Seq<char>>
    decreases entries.len(),
{
    if entries.len() == 0 {
        None
    } else if entries[0].0@ == key {
        Some(entries[0].1@)
    } else {
        assoc_get(entries.drop_first(), key)
    }
}

/// The association list with the first entry for `key` removed.
pub open spec fn assoc_remove(entries: Seq<(String, String)>, key: Seq<char>) -> Seq<
    (String, String),
>
    decreases entries.len(),
{
    if entries.len() == 0 {
        entries
    } else if entries[0].0@ == key {
        entries.drop_first()
    } else {
        seq![entries[0]] + assoc_remove(entries.drop_first(), key)
    }
}

/// Looks up the first entry for `key`, returning a copy of its value.
pub fn assoc_get_exec(entries: &Vec<(String, String)>, key: &str) -> (r: Option<String>)
    ensures
        match r {
            Some(v) => assoc_get(entries@, key@) == Some(v@),
            None => assoc_get(entries@, key@) is None,
        },
{
    let n = entries.len();
    let mut i: usize = 0;
    proof {
        assert(entries@.skip(0) =~= entries@);
    }
    while i < n
        invariant
            0 <= i <= n,
            n == entries@.len(),
            assoc_get(entries@, key@) == assoc_get(entries@.skip(i as int), key@),
        decreases n - i,
    {
        proof {
            assert(entries@.skip(i as int).drop_first() =~= entries@.skip(i as int + 1));
        }
        if str_eq(entries[i].0.as_str(), key) {
            let v = entries[i].1.clone();
            assert(assoc_get(entries@.skip(i as int), key@) == Some(entries@[i as int].1@));
            return Some(v);
        }
        i = i + 1;
    }
    proof {
        assert(entries@.skip(n as int) =~= Seq::<(String, String)>::empty());
    }
    None
}

/// Removes the first entry for `key`, returning its value if one was there.
pub fn assoc_remove_exec(entries: &mut Vec<(String, String)>, key: &str) -> (r: Option<String>)
    ensures
        final(entries)@ == assoc_remove(old(entries)@, key@),
        match r {
            Some(v) => assoc_get(old(entries)@, key@) == Some(v@),
            None => assoc_get(old(entries)@, key@) is None,
        },
{
    let ghost orig = entries@;
    let n = entries.len();
    let mut i: usize = 0;
    proof {
        assert(orig.skip(0) =~= orig);
        assert(orig.subrange(0, 0) + assoc_remove(orig.skip(0), key@) =~= assoc_remove(
            orig,
            key@,
        ));
    }
    while i < n
        invariant
            0 <= i <= n,
            entries@ == orig,
            orig == old(entries)@,
            n == orig.len(),
            assoc_get(orig, key@) == assoc_get(orig.skip(i as int), key@),
            assoc_remove(orig, key@) == orig.subrange(0, i as int) + assoc_remove(
                orig.skip(i as int),
                key@,
            ),
        decreases n - i,
    {
        proof {
            assert(orig.skip(i as int).drop_first() =~= orig.skip(i as int + 1));
        }
        if str_eq(entries[i].0.as_str(), key) {
            let v = entries[i].1.clone();
            assert(orig.skip(i as int).len() == n - i);
            assert(orig.skip(i as int)[0] == orig[i as int]);
            assert(assoc_get(orig.skip(i as int), key@) == Some(orig[i as int].1@));
            assert(assoc_remove(orig.skip(i as int), key@) == orig.skip(i as int + 1));
            let _removed = entries.remove(i);
            proof {
                assert(orig.remove(i as int) =~= orig.subrange(0, i as int) + orig.skip(
                    i as int + 1,
                ));
                assert(entries@ == assoc_remove(orig, key@));
                assert(assoc_get(orig, key@) == Some(v@));
            }
            return Some(v);
        }
        proof {
            assert(assoc_remove(orig.skip(i as int), key@) == seq![orig[i as int]] + assoc_remove(
                orig.skip(i as int + 1),
                key@,
            ));
            assert(orig.subrange(0, i as int) + (seq![orig[i as int]] + assoc_remove(
                orig.skip(i as int + 1),
                key@,
            )) =~= orig.subrange(0, i as int + 1) + assoc_remove(orig.skip(i as int + 1), key@));
        }
        i = i + 1;
    }
    proof {
        assert(orig.skip(n as int) =~= Seq::<(String, String)>::empty());
        assert(assoc_remove(orig, key@) =~= orig);
    }
    None
}

} // verus!
