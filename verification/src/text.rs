//! Text handling: comparison, ASCII case folding, decimal integers and file
//! names.

use vstd::prelude::*;
use vstd::utf8::{decode_utf8, encode_utf8};

verus! {

/// Specifies `std::string::String::push`: it appends the given character to
/// the end of the string.
pub assume_specification[ String::push ](s: &mut String, c: char)
    ensures
        final(s)@ == old(s)@.push(c),
;

// ── Comparison ──────────────────────────────────────────────────────────────

/// Whether two texts hold the same characters.
pub fn same_text(a: &str, b: &str) -> (same: bool)
    ensures
        same == (a@ == b@),
{
    let x = a.as_bytes();
    let y = b.as_bytes();
    proof {
        vstd::utf8::encode_utf8_decode_utf8(a@);
        vstd::utf8::encode_utf8_decode_utf8(b@);
    }
    if x.len() != y.len() {
        return false;
    }
    let n: usize = x.len();
    for i in 0..n
        invariant
            n == x@.len(),
            n == y@.len(),
            forall|j: int| 0 <= j < i ==> x@[j] == y@[j],
            x@ == encode_utf8(a@),
            y@ == encode_utf8(b@),
    {
        if x[i] != y[i] {
            return false;
        }
    }
    assert(x@ =~= y@);
    assert(decode_utf8(x@) == decode_utf8(y@));
    true
}

/// The characters of a text, in order.
pub fn chars_of(s: &str) -> (chars: Vec<char>)
    ensures
        chars@ == s@,
{
    let mut out: Vec<char> = Vec::new();
    for c in it: s.chars()
        invariant
            it.seq() == s@,
            out@ == s@.take(it.index()),
    {
        out.push(c);
    }
    out
}

/// The text made of the given characters.
pub fn text_of(chars: &Vec<char>) -> (s: String)
    ensures
        s@ == chars@,
{
    let mut out = String::new();
    for i in 0..chars.len()
        invariant
            out@ == chars@.take(i as int),
    {
        out.push(chars[i]);
        assert(chars@.take(i + 1) =~= chars@.take(i as int).push(chars@[i as int]));
    }
    assert(chars@.take(chars@.len() as int) =~= chars@);
    out
}

// ── ASCII case ──────────────────────────────────────────────────────────────

/// An upper-case ASCII letter's lower-case form; every other character as it
/// is.
pub open spec fn lower_char(c: char) -> char {
    if 'A' <= c && c <= 'Z' {
        (c as u32 + 32) as char
    } else {
        c
    }
}

/// A text with its upper-case ASCII letters made lower-case.
pub open spec fn lower(s: Seq<char>) -> Seq<char> {
    s.map_values(|c: char| lower_char(c))
}

/// Copies a text, making its upper-case ASCII letters lower-case.
pub fn to_lower(s: &str) -> (out: String)
    ensures
        out@ == lower(s@),
{
    let mut out = String::new();
    for c in it: s.chars()
        invariant
            it.seq() == s@,
            out@ == lower(s@).take(it.index()),
    {
        if 'A' <= c && c <= 'Z' {
            let code: u8 = c as u8;
            out.push((code + 32) as char);
        } else {
            out.push(c);
        }
    }
    assert(lower(s@).take(s@.len() as int) =~= lower(s@));
    out
}

// ── Reading integers ────────────────────────────────────────────────────────

/// Whether a character is one of `0` to `9`.
pub open spec fn is_digit(c: char) -> bool {
    '0' <= c && c <= '9'
}

/// The number that a digit stands for.
pub open spec fn digit_value(c: char) -> nat {
    (c as u32 - '0' as u32) as nat
}

/// Whether every character is a digit.
pub open spec fn all_digits(s: Seq<char>) -> bool {
    forall|i: int| 0 <= i < s.len() ==> is_digit(#[trigger] s[i])
}

/// The number that a row of decimal digits stands for.
pub open spec fn digits_value(s: Seq<char>) -> nat
    decreases s.len(),
{
    if s.len() == 0 {
        0
    } else {
        digits_value(s.drop_last()) * 10 + digit_value(s.last())
    }
}

/// Whether a text starts with a plus or a minus sign.
pub open spec fn is_signed(s: Seq<char>) -> bool {
    s.len() > 0 && (s[0] == '+' || s[0] == '-')
}

/// The part of a text behind its sign, if it has one.
pub open spec fn unsigned_part(s: Seq<char>) -> Seq<char> {
    if is_signed(s) {
        s.skip(1)
    } else {
        s
    }
}

/// Reads an optional sign and one or more digits as a whole number; any other
/// text stands for none.
pub open spec fn integer_value(s: Seq<char>) -> Option<int> {
    let digits = unsigned_part(s);
    if digits.len() == 0 || !all_digits(digits) {
        None
    } else if s[0] == '-' {
        Some(-(digits_value(digits) as int))
    } else {
        Some(digits_value(digits) as int)
    }
}

/// What a text stands for as a signed number between two bounds.
pub open spec fn bounded_value(s: Seq<char>, low: int, high: int) -> Option<int> {
    match integer_value(s) {
        Some(n) => if low <= n <= high {
            Some(n)
        } else {
            None
        },
        None => None,
    }
}

/// What a text stands for as an unsigned number up to a bound: a minus sign
/// is never accepted, not even before a zero.
pub open spec fn unsigned_value(s: Seq<char>, high: int) -> Option<int> {
    if s.len() > 0 && s[0] == '-' {
        None
    } else {
        bounded_value(s, 0, high)
    }
}

/// Leading digits never stand for more than the whole row.
proof fn lemma_prefix_value(s: Seq<char>, k: int)
    requires
        0 <= k <= s.len(),
    ensures
        digits_value(s.take(k)) <= digits_value(s),
    decreases s.len(),
{
    if k < s.len() {
        assert(s.drop_last().take(k) =~= s.take(k));
        lemma_prefix_value(s.drop_last(), k);
    } else {
        assert(s.take(k) =~= s);
    }
}

/// The largest magnitude that the readers below ever hand out.
pub const MAGNITUDE_LIMIT: i128 = 0x1_0000_0000_0000_0000;

/// Reads the digits from `start` on. Gives nothing where they are missing,
/// where something else stands among them, or where they stand for more than
/// [`MAGNITUDE_LIMIT`].
fn read_digits(chars: &Vec<char>, start: usize) -> (r: Option<i128>)
    requires
        start <= chars@.len(),
    ensures
        ({
            let digits = chars@.skip(start as int);
            if digits.len() == 0 || !all_digits(digits) || digits_value(digits)
                > MAGNITUDE_LIMIT {
                r is None
            } else {
                r == Some(digits_value(digits) as i128)
            }
        }),
{
    let ghost digits = chars@.skip(start as int);
    let n: usize = chars.len();
    if start == n {
        return None;
    }
    let mut acc: i128 = 0;
    assert(digits.take(0) =~= Seq::<char>::empty());
    for i in start..n
        invariant
            n == chars@.len(),
            start <= n,
            digits == chars@.skip(start as int),
            0 <= acc <= MAGNITUDE_LIMIT,
            acc == digits_value(digits.take(i - start)),
            forall|j: int| 0 <= j < i - start ==> is_digit(#[trigger] digits[j]),
    {
        let c = chars[i];
        assert(digits[i - start] == c);
        if !('0' <= c && c <= '9') {
            return None;
        }
        let d: u8 = c as u8 - '0' as u8;
        proof {
            let longer = digits.take(i - start + 1);
            assert(longer.drop_last() =~= digits.take(i - start));
            assert(longer.last() == c);
            assert(digits_value(longer) == acc * 10 + d);
            lemma_prefix_value(digits, i - start + 1);
        }
        acc = acc * 10 + d as i128;
        if acc > MAGNITUDE_LIMIT {
            return None;
        }
    }
    assert(digits.take(n - start) =~= digits);
    Some(acc)
}

/// Reads a signed whole number and keeps it where it lies between two bounds.
fn read_bounded(s: &str, low: i128, high: i128) -> (r: Option<i128>)
    requires
        -MAGNITUDE_LIMIT <= low,
        high <= MAGNITUDE_LIMIT,
    ensures
        match bounded_value(s@, low as int, high as int) {
            Some(n) => r == Some(n as i128),
            None => r is None,
        },
{
    let chars = chars_of(s);
    if chars.len() == 0 {
        return None;
    }
    let first = chars[0];
    let signed = first == '+' || first == '-';
    let start: usize = if signed { 1 } else { 0 };
    assert(chars@.skip(start as int) =~= unsigned_part(s@));
    match read_digits(&chars, start) {
        None => None,
        Some(magnitude) => {
            let value: i128 = if first == '-' { -magnitude } else { magnitude };
            if low <= value && value <= high {
                Some(value)
            } else {
                None
            }
        },
    }
}

/// Reads a 64-bit signed integer: an optional sign, then only digits.
pub fn parse_i64(s: &str) -> (r: Option<i64>)
    ensures
        match bounded_value(s@, i64::MIN as int, i64::MAX as int) {
            Some(n) => r == Some(n as i64),
            None => r is None,
        },
{
    match read_bounded(s, i64::MIN as i128, i64::MAX as i128) {
        Some(n) => Some(n as i64),
        None => None,
    }
}

/// Reads a 32-bit signed integer: an optional sign, then only digits.
pub fn parse_i32(s: &str) -> (r: Option<i32>)
    ensures
        match bounded_value(s@, i32::MIN as int, i32::MAX as int) {
            Some(n) => r == Some(n as i32),
            None => r is None,
        },
{
    match read_bounded(s, i32::MIN as i128, i32::MAX as i128) {
        Some(n) => Some(n as i32),
        None => None,
    }
}

/// Reads a 32-bit unsigned integer: an optional plus sign, then only digits.
pub fn parse_u32(s: &str) -> (r: Option<u32>)
    ensures
        match unsigned_value(s@, u32::MAX as int) {
            Some(n) => r == Some(n as u32),
            None => r is None,
        },
{
    let chars = chars_of(s);
    if chars.len() > 0 && chars[0] == '-' {
        return None;
    }
    match read_bounded(s, 0, u32::MAX as i128) {
        Some(n) => Some(n as u32),
        None => None,
    }
}

// ── Writing integers ────────────────────────────────────────────────────────

/// The character for a number below ten.
pub open spec fn digit_char(d: nat) -> char {
    ('0' as u32 + d) as char
}

/// A natural number in decimal digits, without leading zeros.
pub open spec fn decimal(n: nat) -> Seq<char>
    decreases n,
{
    if n < 10 {
        seq![digit_char(n)]
    } else {
        decimal(n / 10).push(digit_char(n % 10))
    }
}

/// A whole number in decimal, with a minus sign where it is negative.
pub open spec fn integer_text(n: int) -> Seq<char> {
    if n < 0 {
        seq!['-'] + decimal((-n) as nat)
    } else {
        decimal(n as nat)
    }
}

/// A natural number in decimal, with a leading zero where it has one digit.
pub open spec fn two_digit_text(n: nat) -> Seq<char> {
    if n < 10 {
        seq!['0'] + decimal(n)
    } else {
        decimal(n)
    }
}

/// Writes a natural number in decimal.
fn write_decimal(n: u64) -> (s: String)
    ensures
        s@ == decimal(n as nat),
    decreases n,
{
    let d: u8 = (n % 10) as u8;
    let c = ('0' as u8 + d) as char;
    if n < 10 {
        let mut s = String::new();
        s.push(c);
        assert(s@ =~= seq![digit_char(n as nat)]);
        s
    } else {
        let mut s = write_decimal(n / 10);
        s.push(c);
        s
    }
}

/// Writes a 64-bit signed integer in decimal.
pub fn write_i64(n: i64) -> (s: String)
    ensures
        s@ == integer_text(n as int),
{
    if n < 0 {
        let magnitude: u64 = (-(n as i128)) as u64;
        let mut s = String::new();
        s.push('-');
        s.append(write_decimal(magnitude).as_str());
        assert(s@ =~= seq!['-'] + decimal(magnitude as nat));
        s
    } else {
        write_decimal(n as u64)
    }
}

/// Writes a natural number in decimal, with a leading zero where it has one
/// digit.
pub fn write_two_digits(n: u32) -> (s: String)
    ensures
        s@ == two_digit_text(n as nat),
{
    if n < 10 {
        let mut s = String::new();
        s.push('0');
        s.append(write_decimal(n as u64).as_str());
        assert(s@ =~= seq!['0'] + decimal(n as nat));
        s
    } else {
        write_decimal(n as u64)
    }
}

// ── Reading back what was written ───────────────────────────────────────────

proof fn lemma_digit_round_trip(d: nat)
    requires
        d < 10,
    ensures
        is_digit(digit_char(d)),
        digit_value(digit_char(d)) == d,
{
}

/// The decimal text of a number is a row of digits that stands for it.
pub proof fn lemma_decimal_is_digits(n: nat)
    ensures
        decimal(n).len() >= 1,
        all_digits(decimal(n)),
        digits_value(decimal(n)) == n,
    decreases n,
{
    lemma_digit_round_trip(n % 10);
    if n < 10 {
        assert(decimal(n).drop_last() =~= Seq::<char>::empty());
        assert(digits_value(decimal(n).drop_last()) == 0);
    } else {
        lemma_decimal_is_digits(n / 10);
        assert(decimal(n).drop_last() =~= decimal(n / 10));
    }
}

/// A leading zero changes no number.
proof fn lemma_leading_zero(s: Seq<char>)
    ensures
        digits_value(seq!['0'] + s) == digits_value(s),
    decreases s.len(),
{
    let longer = seq!['0'] + s;
    if s.len() == 0 {
        assert(longer.drop_last() =~= Seq::<char>::empty());
        assert(digits_value(longer.drop_last()) == 0);
    } else {
        assert(longer.drop_last() =~= seq!['0'] + s.drop_last());
        lemma_leading_zero(s.drop_last());
    }
}

/// Reading the decimal text of a whole number gives that number back.
pub proof fn law_integer_text_reads_back(n: int)
    ensures
        integer_value(integer_text(n)) == Some(n),
{
    if n < 0 {
        lemma_decimal_is_digits((-n) as nat);
        assert(integer_text(n).skip(1) =~= decimal((-n) as nat));
    } else {
        lemma_decimal_is_digits(n as nat);
        assert(is_digit(decimal(n as nat)[0]));
    }
}

/// Reading the two-digit text of a number gives that number back.
pub proof fn law_two_digit_text_reads_back(n: u32)
    ensures
        unsigned_value(two_digit_text(n as nat), u32::MAX as int) == Some(n as int),
{
    lemma_decimal_is_digits(n as nat);
    let t = two_digit_text(n as nat);
    if n < 10 {
        lemma_leading_zero(decimal(n as nat));
        assert(all_digits(t)) by {
            assert forall|i: int| 0 <= i < t.len() implies is_digit(#[trigger] t[i]) by {
                if i > 0 {
                    assert(t[i] == decimal(n as nat)[i - 1]);
                }
            }
        }
    }
    assert(is_digit(t[0]));
}

// ── What texts stand for ────────────────────────────────────────────────────

/// A digit stands for its place behind zero, and a digit behind a row of digits
/// stands for the ones, the row before it for ten times as much.
pub proof fn law_digits_count_by_tens(s: Seq<char>, d: nat)
    requires
        d < 10,
        forall|i: int| 0 <= i < s.len() ==> '0' <= #[trigger] s[i] && s[i] <= '9',
    ensures
        ({
            let c = (48 + d) as char;
            &&& s.len() == 0 ==> integer_value(s) is None && integer_value(s.push(c)) == Some(
                d as int,
            )
            &&& s.len() > 0 ==> integer_value(s) is Some && integer_value(s.push(c)) == Some(
                10 * integer_value(s)->0 + d,
            )
        }),
{
    let c = (48 + d) as char;
    let longer = s.push(c);
    assert('0' <= c && c <= '9');
    assert(longer.drop_last() =~= s);
    assert forall|i: int| 0 <= i < longer.len() implies is_digit(#[trigger] longer[i]) by {
        if i < s.len() {
            assert(longer[i] == s[i]);
        }
    }
    assert(all_digits(longer));
    assert(all_digits(s)) by {
        assert forall|i: int| 0 <= i < s.len() implies is_digit(#[trigger] s[i]) by {}
    }
    assert(is_digit(longer[0]));
    if s.len() > 0 {
        assert(is_digit(s[0]));
    } else {
        assert(digits_value(s) == 0);
    }
}

/// A minus sign before digits turns the number round, a plus sign changes
/// nothing, and any other character among the digits leaves no number.
pub proof fn law_signs_stand_before_digits(s: Seq<char>)
    requires
        s.len() > 0,
    ensures
        ({
            let digits = forall|i: int| 0 <= i < s.len() ==> '0' <= #[trigger] s[i] && s[i] <= '9';
            let minus = integer_value(seq!['-'] + s);
            let plus = integer_value(seq!['+'] + s);
            &&& digits ==> integer_value(s) is Some && minus == Some(-integer_value(s)->0) && plus
                == integer_value(s)
            &&& !digits ==> minus is None && plus is None
            &&& !digits && s[0] != '-' && s[0] != '+' ==> integer_value(s) is None
        }),
{
    let digits = forall|i: int| 0 <= i < s.len() ==> '0' <= #[trigger] s[i] && s[i] <= '9';
    assert((seq!['-'] + s).skip(1) =~= s);
    assert((seq!['+'] + s).skip(1) =~= s);
    assert(all_digits(s) == digits) by {
        if digits {
            assert forall|i: int| 0 <= i < s.len() implies is_digit(#[trigger] s[i]) by {}
        } else {
            let i = choose|i: int| 0 <= i < s.len() && !('0' <= #[trigger] s[i] && s[i] <= '9');
            assert(!is_digit(s[i]));
        }
    }
    if digits {
        assert(is_digit(s[0]));
    }
}

/// A number between two bounds is what the text stands for, and nothing else is.
pub proof fn law_bounds_leave_numbers_as_they_are(s: Seq<char>, low: int, high: int)
    ensures
        ({
            let n = integer_value(s);
            &&& n is Some && low <= n->0 <= high ==> bounded_value(s, low, high) == n
            &&& n is None || n->0 < low || n->0 > high ==> bounded_value(s, low, high) is None
            &&& s.len() > 0 && s[0] == '-' ==> unsigned_value(s, high) is None
            &&& !(s.len() > 0 && s[0] == '-') ==> unsigned_value(s, high) == bounded_value(
                s,
                0,
                high,
            )
        }),
{
}

/// A number is written digit by digit: the ones behind the tens and what is above
/// them, without a leading zero, and a minus sign before it where it is negative.
pub proof fn law_numbers_are_written_in_decimal(n: nat, d: nat)
    requires
        d < 10,
    ensures
        integer_text(d as int) == seq![(48 + d) as char],
        n > 0 ==> integer_text((10 * n + d) as int) == integer_text(n as int).push((48 + d) as char),
        n > 0 ==> integer_text(-n) == seq!['-'] + integer_text(n as int),
        n < 10 ==> two_digit_text(n) == seq!['0', (48 + n) as char],
        n >= 10 ==> two_digit_text(n) == integer_text(n as int),
{
    assert((10 * n + d) / 10 == n);
    assert((10 * n + d) % 10 == d);
    if n < 10 {
        assert(two_digit_text(n) =~= seq!['0', (48 + n) as char]);
    }
}

/// Making a text lower-case moves each of the 26 upper-case letters 32 places up
/// and leaves every other character where it is.
pub proof fn law_lower_case_moves_letters_only(s: Seq<char>)
    ensures
        lower(s).len() == s.len(),
        forall|i: int|
            0 <= i < s.len() ==> #[trigger] lower(s)[i] == (if 65 <= s[i] as u32 && s[i] as u32
                <= 90 {
                (s[i] as u32 + 32) as char
            } else {
                s[i]
            }),
{
}

// ── File names and paths ────────────────────────────────────────────────────

/// Where the last dot of a name stands, or -1 where it has none.
pub open spec fn last_dot(name: Seq<char>) -> int
    decreases name.len(),
{
    if name.len() == 0 {
        -1
    } else if name.last() == '.' {
        name.len() - 1
    } else {
        last_dot(name.drop_last())
    }
}

/// The part of a file name before its extension: what stands before the last
/// dot, or the whole name where there is no dot or only a leading one.
pub open spec fn stem(name: Seq<char>) -> Seq<char> {
    if last_dot(name) <= 0 {
        name
    } else {
        name.take(last_dot(name))
    }
}

/// Extracts the stem of a file name.
pub fn file_stem(name: &str) -> (s: String)
    ensures
        s@ == stem(name@),
{
    let chars = chars_of(name);
    let mut i: usize = chars.len();
    assert(chars@.take(i as int) =~= chars@);
    while i > 0
        invariant
            i <= chars@.len(),
            chars@ == name@,
            last_dot(name@) == last_dot(chars@.take(i as int)),
        decreases i,
    {
        let ghost head = chars@.take(i as int);
        i = i - 1;
        assert(head.drop_last() =~= chars@.take(i as int));
        if chars[i] == '.' {
            if i == 0 {
                return text_of(&chars);
            }
            let mut out = String::new();
            for j in 0..i
                invariant
                    i <= chars@.len(),
                    out@ == chars@.take(j as int),
            {
                out.push(chars[j]);
                assert(chars@.take(j + 1) =~= chars@.take(j as int).push(chars@[j as int]));
            }
            return out;
        }
    }
    text_of(&chars)
}

/// A path extended by one part: an absolute part replaces the path, any other
/// part follows it behind one slash.
pub open spec fn joined(base: Seq<char>, part: Seq<char>) -> Seq<char> {
    if part.len() > 0 && part[0] == '/' {
        part
    } else if base.len() == 0 || base.last() == '/' {
        base + part
    } else {
        base.push('/') + part
    }
}

/// Extends a path by one part.
pub fn join_path(base: &str, part: &str) -> (path: String)
    ensures
        path@ == joined(base@, part@),
{
    let p = chars_of(part);
    let b = chars_of(base);
    if p.len() > 0 && p[0] == '/' {
        return part.to_owned();
    }
    let mut path = base.to_owned();
    if b.len() > 0 && b[b.len() - 1] != '/' {
        path.push('/');
    }
    path.append(part);
    path
}

/// A stem and an extension make the name: the extension begins at the last dot,
/// which does not stand first. Without such a dot the name is its own stem.
pub proof fn law_a_name_is_its_stem_and_extension(name: Seq<char>, k: int)
    requires
        0 <= k < name.len(),
        forall|i: int| k < i < name.len() ==> #[trigger] name[i] != '.',
    ensures
        name[k] == '.' && k > 0 ==> stem(name) == name.take(k),
        name[k] == '.' && k == 0 ==> stem(name) == name,
        k == 0 && name[k] != '.' ==> stem(name) == name,
    decreases name.len(),
{
    lemma_last_dot(name, k);
}

proof fn lemma_last_dot(name: Seq<char>, k: int)
    requires
        0 <= k < name.len(),
        forall|i: int| k < i < name.len() ==> #[trigger] name[i] != '.',
    ensures
        name[k] == '.' ==> last_dot(name) == k,
        k == 0 && name[k] != '.' ==> last_dot(name) == -1,
    decreases name.len(),
{
    let head = name.drop_last();
    if k < name.len() - 1 {
        assert(name[name.len() - 1] != '.');
        assert forall|i: int| k < i < head.len() implies #[trigger] head[i] != '.' by {
            assert(head[i] == name[i]);
        }
        lemma_last_dot(head, k);
    } else if k == 0 && name[k] != '.' {
        assert(head.len() == 0);
        assert(last_dot(head) == -1);
    }
}

/// A part that is not absolute follows a path behind exactly one slash; one that
/// is absolute stands for itself.
pub proof fn law_paths_are_joined_by_one_slash(base: Seq<char>, part: Seq<char>)
    ensures
        part.len() > 0 && part[0] == '/' ==> joined(base, part) == part,
        !(part.len() > 0 && part[0] == '/') && base.len() == 0 ==> joined(base, part) == part,
        !(part.len() > 0 && part[0] == '/') && base.len() > 0 && base.last() == '/' ==> joined(
            base,
            part,
        ) == base + part,
        !(part.len() > 0 && part[0] == '/') && base.len() > 0 && base.last() != '/' ==> joined(
            base,
            part,
        ) == base + seq!['/'] + part,
{
    assert(base + seq!['/'] + part =~= base.push('/') + part);
    assert(Seq::<char>::empty() + part =~= part);
    if base.len() == 0 {
        assert(base + part =~= part);
    }
}

} // verus!
