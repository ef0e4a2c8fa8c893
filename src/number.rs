use vstd::prelude::*;
use vstd::string::*;
use crate::text::{chars_of, push_char, same_text};

verus! {

pub open spec fn is_digit(c: char) -> bool {
    '0' <= c && c <= '9'
}

pub open spec fn all_digits(s: Seq<char>) -> bool {
    forall|i: int| 0 <= i < s.len() ==> is_digit(#[trigger] s[i])
}

/// The value of a decimal digit char.
pub open spec fn digit_of(c: char) -> int {
    (c as u32) as int - 48
}

/// The value of a string of decimal digits, most significant first.
pub open spec fn digits_value(s: Seq<char>) -> int
    decreases s.len(),
{
    if s.len() == 0 {
        0
    } else {
        digits_value(s.drop_last()) * 10 + digit_of(s.last())
    }
}

/// The integer that a text denotes: an optional sign (`-` only where
/// `signed`) followed by one or more decimal digits.
pub open spec fn integer_value(s: Seq<char>, signed: bool) -> Option<int> {
    if s.len() > 0 && (s[0] == '+' || (signed && s[0] == '-')) {
        let d = s.drop_first();
        if d.len() > 0 && all_digits(d) {
            Some(if s[0] == '-' { -digits_value(d) } else { digits_value(d) })
        } else {
            None
        }
    } else if s.len() > 0 && all_digits(s) {
        Some(digits_value(s))
    } else {
        None
    }
}

/// The integer that a text denotes, when it lies in `lo..=hi`.
pub open spec fn integer_in(s: Seq<char>, signed: bool, lo: int, hi: int) -> Option<int> {
    match integer_value(s, signed) {
        Some(v) => if lo <= v <= hi { Some(v) } else { None },
        None => None,
    }
}

/// The char of a decimal digit.
pub open spec fn digit_char(d: int) -> char {
    if d == 0 { '0' }
    else if d == 1 { '1' }
    else if d == 2 { '2' }
    else if d == 3 { '3' }
    else if d == 4 { '4' }
    else if d == 5 { '5' }
    else if d == 6 { '6' }
    else if d == 7 { '7' }
    else if d == 8 { '8' }
    else { '9' }
}

/// The decimal text of a natural number, without leading zeros.
pub open spec fn nat_text(n: nat) -> Seq<char>
    decreases n,
{
    if n < 10 {
        seq![digit_char(n as int)]
    } else {
        nat_text((n / 10) as nat).push(digit_char(n as int % 10))
    }
}

/// The decimal text of an integer.
pub open spec fn int_text(n: int) -> Seq<char> {
    if n < 0 {
        seq!['-'] + nat_text((-n) as nat)
    } else {
        nat_text(n as nat)
    }
}

proof fn lemma_digit_char(d: int)
    requires
        0 <= d < 10,
    ensures
        is_digit(digit_char(d)),
        digit_of(digit_char(d)) == d,
{
}

proof fn lemma_digits_push(s: Seq<char>, c: char)
    ensures
        digits_value(s.push(c)) == digits_value(s) * 10 + digit_of(c),
{
    assert(s.push(c).drop_last() == s);
}

/// A longer run of digits is worth at least as much as its prefix.
proof fn lemma_digits_prefix(s: Seq<char>, i: int)
    requires
        all_digits(s),
        0 <= i <= s.len(),
    ensures
        0 <= digits_value(s.take(i)) <= digits_value(s),
    decreases s.len(),
{
    if s.len() > 0 {
        assert(s.drop_last() =~= s.take(s.len() - 1));
        if i < s.len() {
            assert(s.drop_last().take(i) =~= s.take(i));
            lemma_digits_prefix(s.drop_last(), i);
        } else {
            assert(s.take(i) =~= s);
            lemma_digits_prefix(s.drop_last(), i - 1);
        }
    } else {
        assert(s.take(i) =~= s);
    }
}

pub(crate) proof fn lemma_nat_text(n: nat)
    ensures
        nat_text(n).len() > 0,
        all_digits(nat_text(n)),
        digits_value(nat_text(n)) == n,
    decreases n,
{
    if n < 10 {
        lemma_digit_char(n as int);
        lemma_digits_push(Seq::empty(), digit_char(n as int));
        assert(seq![digit_char(n as int)] =~= Seq::<char>::empty().push(digit_char(n as int)));
    } else {
        lemma_nat_text((n / 10) as nat);
        lemma_digit_char(n as int % 10);
        lemma_digits_push(nat_text((n / 10) as nat), digit_char(n as int % 10));
    }
}

/// Reading back the text of an integer gives the integer.
pub proof fn lemma_int_text_value(n: int)
    ensures
        integer_value(int_text(n), true) == Some(n),
{
    if n < 0 {
        lemma_nat_text((-n) as nat);
        assert((seq!['-'] + nat_text((-n) as nat)).drop_first() =~= nat_text((-n) as nat));
    } else {
        lemma_nat_text(n as nat);
        assert(is_digit(nat_text(n as nat)[0]));
    }
}

/// Reads the digits `cs[from..to]` as a number no greater than `limit`.
fn read_digits(cs: &Vec<char>, from: usize, to: usize, limit: i64) -> (r: Option<i64>)
    requires
        from <= to <= cs@.len(),
        0 <= limit <= 0x0800_0000_0000_0000,
    ensures
        r matches Some(v) ==> all_digits(cs@.subrange(from as int, to as int)) && v as int
            == digits_value(cs@.subrange(from as int, to as int)) && v <= limit,
        r is None ==> !all_digits(cs@.subrange(from as int, to as int)) || digits_value(
            cs@.subrange(from as int, to as int),
        ) > limit,
{
    let ghost d = cs@.subrange(from as int, to as int);
    let mut acc: i64 = 0;
    let mut i: usize = from;
    while i < to
        invariant
            from <= i <= to <= cs@.len(),
            d == cs@.subrange(from as int, to as int),
            0 <= limit <= 0x0800_0000_0000_0000,
            all_digits(d.take(i - from)),
            acc as int == digits_value(d.take(i - from)),
            0 <= acc <= limit,
        decreases to - i,
    {
        let c = cs[i];
        if !('0' <= c && c <= '9') {
            proof {
                assert(d[i - from] == c);
            }
            return None;
        }
        let dv = (c as u32 - 48) as i64;
        proof {
            assert(d.take(i - from + 1) == d.take(i - from).push(c));
            lemma_digits_push(d.take(i - from), c);
        }
        if acc * 10 + dv > limit {
            proof {
                assert(all_digits(d.take(i - from + 1)));
                if all_digits(d) {
                    lemma_digits_prefix(d, i - from + 1);
                }
            }
            return None;
        }
        acc = acc * 10 + dv;
        i = i + 1;
    }
    proof {
        assert(d.take(to - from) =~= d);
    }
    Some(acc)
}

/// Parses a decimal integer in `lo..=hi`.
pub fn parse_integer(s: &str, signed: bool, lo: i64, hi: i64) -> (r: Option<i64>)
    requires
        -0x1_0000_0000 <= lo <= 0 <= hi <= 0x1_0000_0000,
    ensures
        r matches Some(v) ==> integer_in(s@, signed, lo as int, hi as int) == Some(v as int),
        r is None ==> integer_in(s@, signed, lo as int, hi as int) is None,
{
    let cs = chars_of(s);
    let n = cs.len();
    if n == 0 {
        return None;
    }
    let neg = signed && cs[0] == '-';
    let start: usize = if cs[0] == '+' || neg { 1 } else { 0 };
    if start == n {
        return None;
    }
    let limit: i64 = if neg { -lo } else { hi };
    let ghost d = cs@.subrange(start as int, n as int);
    proof {
        if start == 1 {
            assert(d =~= s@.drop_first());
        } else {
            assert(d =~= s@);
        }
    }
    match read_digits(&cs, start, n, limit) {
        Some(v) => {
            proof {
                lemma_digits_prefix(d, 0);
            }
            if neg {
                Some(-v)
            } else {
                Some(v)
            }
        },
        None => None,
    }
}

pub fn parse_u8(s: &str) -> (r: Option<u8>)
    ensures
        r matches Some(v) ==> integer_in(s@, false, 0, 255) == Some(v as int),
        r is None ==> integer_in(s@, false, 0, 255) is None,
{
    match parse_integer(s, false, 0, 255) {
        Some(v) => Some(v as u8),
        None => None,
    }
}

pub fn parse_u16(s: &str) -> (r: Option<u16>)
    ensures
        r matches Some(v) ==> integer_in(s@, false, 0, 65535) == Some(v as int),
        r is None ==> integer_in(s@, false, 0, 65535) is None,
{
    match parse_integer(s, false, 0, 65535) {
        Some(v) => Some(v as u16),
        None => None,
    }
}

pub fn parse_i8(s: &str) -> (r: Option<i8>)
    ensures
        r matches Some(v) ==> integer_in(s@, true, -128, 127) == Some(v as int),
        r is None ==> integer_in(s@, true, -128, 127) is None,
{
    match parse_integer(s, true, -128, 127) {
        Some(v) => Some(v as i8),
        None => None,
    }
}

pub fn parse_i32(s: &str) -> (r: Option<i32>)
    ensures
        r matches Some(v) ==> integer_in(s@, true, i32::MIN as int, i32::MAX as int) == Some(
            v as int,
        ),
        r is None ==> integer_in(s@, true, i32::MIN as int, i32::MAX as int) is None,
{
    match parse_integer(s, true, i32::MIN as i64, i32::MAX as i64) {
        Some(v) => Some(v as i32),
        None => None,
    }
}

fn digit_char_of(d: u64) -> (c: char)
    requires
        d < 10,
    ensures
        c == digit_char(d as int),
{
    match d {
        0 => '0',
        1 => '1',
        2 => '2',
        3 => '3',
        4 => '4',
        5 => '5',
        6 => '6',
        7 => '7',
        8 => '8',
        _ => '9',
    }
}

/// Appends the decimal text of `n`.
pub(crate) fn push_nat(s: &mut String, n: u64)
    ensures
        final(s)@ == old(s)@ + nat_text(n as nat),
    decreases n,
{
    if n >= 10 {
        push_nat(s, n / 10);
    }
    push_char(s, digit_char_of(n % 10));
    proof {
        if n >= 10 {
            assert(nat_text(n as nat) == nat_text((n / 10) as nat).push(digit_char(n as int % 10)));
        }
    }
}

/// The decimal text of an integer.
pub fn int_to_string(n: i64) -> (r: String)
    ensures
        r@ == int_text(n as int),
{
    let mut s = String::new();
    if n < 0 {
        push_char(&mut s, '-');
        let m: u64 = if n == i64::MIN { 0x8000_0000_0000_0000 } else { (-n) as u64 };
        push_nat(&mut s, m);
        assert(s@ =~= seq!['-'] + nat_text((-n) as nat));
    } else {
        push_nat(&mut s, n as u64);
        assert(s@ =~= nat_text(n as nat));
    }
    s
}

/// The flag that a text denotes: `"0"` is false and `"1"` is true.
pub open spec fn flag_value(s: Seq<char>) -> Option<bool> {
    if s == "0"@ {
        Some(false)
    } else if s == "1"@ {
        Some(true)
    } else {
        None
    }
}

/// The text of a flag.
pub open spec fn flag_text(b: bool) -> Seq<char> {
    if b { "1"@ } else { "0"@ }
}

pub fn parse_flag(s: &str) -> (r: Option<bool>)
    ensures
        r == flag_value(s@),
{
    if same_text(s, "0") {
        Some(false)
    } else if same_text(s, "1") {
        Some(true)
    } else {
        None
    }
}

pub fn flag_to_string(b: bool) -> (r: String)
    ensures
        r@ == flag_text(b),
{
    if b {
        String::from_str("1")
    } else {
        String::from_str("0")
    }
}


/// Whole parts from this bound up are not accepted in a decimal.
pub const DECIMAL_WHOLE_BOUND: i64 = 100_000_000_000_000;

/// A real number held to four decimal places, the precision at which the
/// level format writes coordinates: its value is `ten_thousandths / 10000`.
#[derive(Debug, Clone, Copy, PartialEq, Eq, Structural)]
pub struct Decimal4 {
    pub ten_thousandths: i64,
}

/// The index of the first `.` in `s`, or `s.len()` if there is none.
pub open spec fn first_dot(s: Seq<char>) -> int
    decreases s.len(),
{
    if s.len() == 0 {
        0
    } else if s[0] == '.' {
        0
    } else {
        1 + first_dot(s.drop_first())
    }
}

/// The digit at place `i` after the point, zero past the end.
pub open spec fn frac_digit(f: Seq<char>, i: int) -> int {
    if i < f.len() {
        digit_of(f[i])
    } else {
        0
    }
}

/// Four places of a fraction in ten-thousandths, rounded half up on the fifth.
pub open spec fn frac_units(f: Seq<char>) -> int {
    1000 * frac_digit(f, 0) + 100 * frac_digit(f, 1) + 10 * frac_digit(f, 2) + frac_digit(f, 3)
        + if frac_digit(f, 4) >= 5 { 1int } else { 0int }
}

/// A text without its leading sign, if any.
pub open spec fn unsigned_part(s: Seq<char>) -> Seq<char> {
    if s.len() > 0 && (s[0] == '+' || s[0] == '-') {
        s.drop_first()
    } else {
        s
    }
}

/// What precedes the first point.
pub open spec fn whole_part(b: Seq<char>) -> Seq<char> {
    b.take(first_dot(b))
}

/// What follows the first point; empty where there is none.
pub open spec fn frac_part(b: Seq<char>) -> Seq<char> {
    if first_dot(b) < b.len() {
        b.skip(first_dot(b) + 1)
    } else {
        Seq::empty()
    }
}

/// The value in ten-thousandths of a decimal text: an optional sign, then
/// digits with at most one point among them and at least one digit, rounded
/// half away from zero to four places, with a whole part under the bound.
pub open spec fn decimal4_value(s: Seq<char>) -> Option<int> {
    let w = whole_part(unsigned_part(s));
    let f = frac_part(unsigned_part(s));
    if all_digits(w) && all_digits(f) && w.len() + f.len() > 0 && digits_value(w)
        < DECIMAL_WHOLE_BOUND {
        let m = digits_value(w) * 10000 + frac_units(f);
        Some(if s.len() > 0 && s[0] == '-' { -m } else { m })
    } else {
        None
    }
}

/// The text of the first four places of a fraction in ten-thousandths, with
/// trailing zeros left out; empty for zero.
pub open spec fn frac_text(f: int) -> Seq<char> {
    let ds = seq![
        digit_char(f / 1000),
        digit_char(f / 100 % 10),
        digit_char(f / 10 % 10),
        digit_char(f % 10),
    ];
    if f == 0 {
        Seq::empty()
    } else if f % 10 != 0 {
        seq!['.'] + ds
    } else if f / 10 % 10 != 0 {
        seq!['.'] + ds.take(3)
    } else if f / 100 % 10 != 0 {
        seq!['.'] + ds.take(2)
    } else {
        seq!['.'] + ds.take(1)
    }
}

/// The text of a decimal given in ten-thousandths: its whole part, then
/// at most four places with trailing zeros and a bare point left out.
pub open spec fn decimal4_text(u: int) -> Seq<char> {
    let m = if u < 0 { -u } else { u };
    let sign = if u < 0 { seq!['-'] } else { Seq::empty() };
    sign + nat_text((m / 10000) as nat) + frac_text(m % 10000)
}

proof fn lemma_first_dot(b: Seq<char>, k: int)
    requires
        0 <= k <= b.len(),
        forall|j: int| 0 <= j < k ==> b[j] != '.',
        k == b.len() || b[k] == '.',
    ensures
        first_dot(b) == k,
    decreases b.len(),
{
    if b.len() > 0 && k > 0 {
        assert forall|j: int| 0 <= j < k - 1 implies b.drop_first()[j] != '.' by {
            assert(b[j + 1] != '.');
        }
        lemma_first_dot(b.drop_first(), k - 1);
    }
}

/// Whether `cs[from..to]` are all decimal digits.
fn all_digit_chars(cs: &Vec<char>, from: usize, to: usize) -> (r: bool)
    requires
        from <= to <= cs@.len(),
    ensures
        r == all_digits(cs@.subrange(from as int, to as int)),
{
    let mut i = from;
    while i < to
        invariant
            from <= i <= to <= cs@.len(),
            forall|j: int| from <= j < i ==> is_digit(cs@[j]),
        decreases to - i,
    {
        if !('0' <= cs[i] && cs[i] <= '9') {
            assert(!is_digit(cs@.subrange(from as int, to as int)[i - from]));
            return false;
        }
        i = i + 1;
    }
    assert forall|j: int| 0 <= j < to - from implies is_digit(
        #[trigger] cs@.subrange(from as int, to as int)[j],
    ) by {
        assert(is_digit(cs@[from + j]));
    }
    true
}

fn frac_digit_at(cs: &Vec<char>, from: usize, i: usize) -> (r: i64)
    requires
        from <= cs@.len(),
        all_digits(cs@.subrange(from as int, cs@.len() as int)),
    ensures
        r == frac_digit(cs@.subrange(from as int, cs@.len() as int), i as int),
        0 <= r <= 9,
{
    let ghost f = cs@.subrange(from as int, cs@.len() as int);
    if i < cs.len() - from {
        assert(is_digit(f[i as int]));
        (cs[from + i] as u32 - 48) as i64
    } else {
        0
    }
}

/// The index of the first exponent mark (`e` or `E`), or `s.len()`.
pub open spec fn first_exp(s: Seq<char>) -> int
    decreases s.len(),
{
    if s.len() == 0 {
        0
    } else if s[0] == 'e' || s[0] == 'E' {
        0
    } else {
        1 + first_exp(s.drop_first())
    }
}

/// Whether `s` is the word given by its lowercase and uppercase spellings,
/// in any mix of case.
pub open spec fn is_word_any_case(s: Seq<char>, lower: Seq<char>, upper: Seq<char>) -> bool {
    s.len() == lower.len() && lower.len() == upper.len() && forall|i: int|
        0 <= i < s.len() ==> #[trigger] s[i] == lower[i] || s[i] == upper[i]
}

/// Whether a text names infinity or not-a-number, in any case.
pub open spec fn is_special_real(b: Seq<char>) -> bool {
    is_word_any_case(b, seq!['i', 'n', 'f'], seq!['I', 'N', 'F']) || is_word_any_case(
        b,
        seq!['i', 'n', 'f', 'i', 'n', 'i', 't', 'y'],
        seq!['I', 'N', 'F', 'I', 'N', 'I', 'T', 'Y'],
    ) || is_word_any_case(b, seq!['n', 'a', 'n'], seq!['N', 'A', 'N'])
}

/// Whether a text is a real number: an optional sign, then either a name of
/// infinity or not-a-number in any case, or digits with at most one point
/// among them and at least one digit, and an optional exponent mark followed
/// by a signed integer.
pub open spec fn is_real_text(s: Seq<char>) -> bool {
    is_special_real(unsigned_part(s)) || is_decimal_real_text(s)
}

/// Whether a text is a real number in decimal notation.
pub open spec fn is_decimal_real_text(s: Seq<char>) -> bool {
    let b = unsigned_part(s);
    let k = first_exp(b);
    let m = b.take(k);
    let w = whole_part(m);
    let f = frac_part(m);
    all_digits(w) && all_digits(f) && w.len() + f.len() > 0 && (k == b.len() || integer_value(
        b.skip(k + 1),
        true,
    ) is Some)
}

proof fn lemma_first_exp(b: Seq<char>, k: int)
    requires
        0 <= k <= b.len(),
        forall|j: int| 0 <= j < k ==> b[j] != 'e' && b[j] != 'E',
        k == b.len() || b[k] == 'e' || b[k] == 'E',
    ensures
        first_exp(b) == k,
    decreases b.len(),
{
    if b.len() > 0 && k > 0 {
        assert forall|j: int| 0 <= j < k - 1 implies b.drop_first()[j] != 'e' && b.drop_first()[j]
            != 'E' by {
            assert(b[j + 1] != 'e' && b[j + 1] != 'E');
        }
        lemma_first_exp(b.drop_first(), k - 1);
    }
}

/// Whether `cs[from..to]` is a signed decimal integer.
fn integer_syntax(cs: &Vec<char>, from: usize, to: usize) -> (r: bool)
    requires
        from <= to <= cs@.len(),
    ensures
        r == (integer_value(cs@.subrange(from as int, to as int), true) is Some),
{
    let ghost x = cs@.subrange(from as int, to as int);
    if from == to {
        return false;
    }
    if cs[from] == '+' || cs[from] == '-' {
        assert(x.drop_first() =~= cs@.subrange(from + 1, to as int));
        from + 1 < to && all_digit_chars(cs, from + 1, to)
    } else {
        all_digit_chars(cs, from, to)
    }
}

/// Whether `cs[from..]` is the word given by its two spellings, in any case.
fn word_any_case(cs: &Vec<char>, from: usize, lower: &Vec<char>, upper: &Vec<char>) -> (r: bool)
    requires
        from <= cs@.len(),
        lower@.len() == upper@.len(),
    ensures
        r == is_word_any_case(cs@.subrange(from as int, cs@.len() as int), lower@, upper@),
{
    let ghost b = cs@.subrange(from as int, cs@.len() as int);
    let n = cs.len();
    if n - from != lower.len() {
        return false;
    }
    let mut i: usize = 0;
    while i < lower.len()
        invariant
            from + lower@.len() == cs@.len(),
            n == cs@.len(),
            lower@.len() == upper@.len(),
            b == cs@.subrange(from as int, cs@.len() as int),
            i <= lower@.len(),
            forall|j: int| 0 <= j < i ==> b[j] == lower@[j] || b[j] == upper@[j],
        decreases lower@.len() - i,
    {
        let c = cs[from + i];
        if c != lower[i] && c != upper[i] {
            assert(b[i as int] == c);
            return false;
        }
        i = i + 1;
    }
    true
}

/// Whether a text is a real number.
pub fn real_text_ok(s: &str) -> (r: bool)
    ensures
        r == is_real_text(s@),
{
    let cs = chars_of(s);
    let n = cs.len();
    let start: usize = if n > 0 && (cs[0] == '+' || cs[0] == '-') { 1 } else { 0 };
    proof {
        if start == 1 {
            assert(cs@.subrange(1, n as int) =~= s@.drop_first());
        } else {
            assert(cs@.subrange(0, n as int) =~= s@);
        }
    }
    let inf_lo = vec!['i', 'n', 'f'];
    let inf_up = vec!['I', 'N', 'F'];
    let infinity_lo = vec!['i', 'n', 'f', 'i', 'n', 'i', 't', 'y'];
    let infinity_up = vec!['I', 'N', 'F', 'I', 'N', 'I', 'T', 'Y'];
    let nan_lo = vec!['n', 'a', 'n'];
    let nan_up = vec!['N', 'A', 'N'];
    if word_any_case(&cs, start, &inf_lo, &inf_up) || word_any_case(
        &cs,
        start,
        &infinity_lo,
        &infinity_up,
    ) || word_any_case(&cs, start, &nan_lo, &nan_up) {
        return true;
    }
    decimal_real_text_ok(s)
}

/// Whether a text is a real number in decimal notation.
fn decimal_real_text_ok(s: &str) -> (r: bool)
    ensures
        r == is_decimal_real_text(s@),
{
    let cs = chars_of(s);
    let n = cs.len();
    let start: usize = if n > 0 && (cs[0] == '+' || cs[0] == '-') { 1 } else { 0 };
    let ghost b = cs@.subrange(start as int, n as int);
    proof {
        if start == 1 {
            assert(b =~= s@.drop_first());
        } else {
            assert(b =~= s@);
        }
    }
    let mut k = start;
    while k < n && cs[k] != 'e' && cs[k] != 'E'
        invariant
            start <= k <= n == cs@.len(),
            b == cs@.subrange(start as int, n as int),
            forall|j: int| 0 <= j < k - start ==> b[j] != 'e' && b[j] != 'E',
        decreases n - k,
    {
        k = k + 1;
    }
    let ghost m = cs@.subrange(start as int, k as int);
    proof {
        lemma_first_exp(b, k - start);
        assert(b.take(k - start) =~= m);
    }
    let mut d = start;
    while d < k && cs[d] != '.'
        invariant
            start <= d <= k <= n == cs@.len(),
            m == cs@.subrange(start as int, k as int),
            forall|j: int| 0 <= j < d - start ==> m[j] != '.',
        decreases k - d,
    {
        d = d + 1;
    }
    let fstart = if d < k { d + 1 } else { k };
    proof {
        lemma_first_dot(m, d - start);
        assert(whole_part(m) =~= cs@.subrange(start as int, d as int));
        assert(frac_part(m) =~= cs@.subrange(fstart as int, k as int));
    }
    if d == start && fstart == k {
        return false;
    }
    if !all_digit_chars(&cs, start, d) || !all_digit_chars(&cs, fstart, k) {
        return false;
    }
    if k == n {
        return true;
    }
    assert(b.skip(k - start + 1) =~= cs@.subrange(k + 1, n as int));
    integer_syntax(&cs, k + 1, n)
}

impl Decimal4 {
    /// Parses a decimal text, rounded to four places.
    #[verifier::spinoff_prover]
    #[verifier::rlimit(40)]
    pub fn parse(s: &str) -> (r: Option<Decimal4>)
        ensures
            r matches Some(d) ==> decimal4_value(s@) == Some(d.ten_thousandths as int),
            r is None ==> decimal4_value(s@) is None,
    {
        let cs = chars_of(s);
        let n = cs.len();
        let neg = n > 0 && cs[0] == '-';
        let start: usize = if n > 0 && (cs[0] == '+' || cs[0] == '-') { 1 } else { 0 };
        let ghost b = cs@.subrange(start as int, n as int);
        proof {
            if start == 1 {
                assert(b =~= s@.drop_first());
            } else {
                assert(b =~= s@);
            }
        }
        let mut k = start;
        while k < n && cs[k] != '.'
            invariant
                start <= k <= n == cs@.len(),
                b == cs@.subrange(start as int, n as int),
                forall|j: int| 0 <= j < k - start ==> b[j] != '.',
            decreases n - k,
        {
            k = k + 1;
        }
        let fstart = if k < n { k + 1 } else { n };
        let ghost w = cs@.subrange(start as int, k as int);
        let ghost f = cs@.subrange(fstart as int, n as int);
        proof {
            lemma_first_dot(b, k - start);
            assert(unsigned_part(s@) == b);
            assert(whole_part(b) =~= w);
            assert(frac_part(b) =~= f);
        }
        if k == start && fstart == n {
            return None;
        }
        let whole = match read_digits(&cs, start, k, DECIMAL_WHOLE_BOUND - 1) {
            Some(v) => v,
            None => {
                return None;
            },
        };
        if !all_digit_chars(&cs, fstart, n) {
            return None;
        }
        let d0 = frac_digit_at(&cs, fstart, 0);
        let d1 = frac_digit_at(&cs, fstart, 1);
        let d2 = frac_digit_at(&cs, fstart, 2);
        let d3 = frac_digit_at(&cs, fstart, 3);
        let d4 = frac_digit_at(&cs, fstart, 4);
        let round: i64 = if d4 >= 5 { 1 } else { 0 };
        proof {
            lemma_digits_prefix(w, 0);
        }
        let m = whole * 10000 + 1000 * d0 + 100 * d1 + 10 * d2 + d3 + round;
        if neg {
            Some(Decimal4 { ten_thousandths: -m })
        } else {
            Some(Decimal4 { ten_thousandths: m })
        }
    }

    /// The text of the value: the whole part, then up to four places with
    /// trailing zeros left out.
    pub fn to_text(&self) -> (r: String)
        ensures
            r@ == decimal4_text(self.ten_thousandths as int),
    {
        let u = self.ten_thousandths;
        let m: u64 = if u < 0 { (-(u as i128)) as u64 } else { u as u64 };
        let mut s = String::new();
        if u < 0 {
            push_char(&mut s, '-');
        }
        push_nat(&mut s, m / 10000);
        let f = m % 10000;
        if f != 0 {
            push_char(&mut s, '.');
            push_char(&mut s, digit_char_of(f / 1000));
            if f % 1000 != 0 {
                push_char(&mut s, digit_char_of(f / 100 % 10));
                if f % 100 != 0 {
                    push_char(&mut s, digit_char_of(f / 10 % 10));
                    if f % 10 != 0 {
                        push_char(&mut s, digit_char_of(f % 10));
                    }
                }
            }
        }
        proof {
            let sign = if u < 0 { seq!['-'] } else { Seq::<char>::empty() };
            assert(f % 1000 != 0 <==> (f / 100 % 10 != 0 || f / 10 % 10 != 0 || f % 10 != 0));
            assert(f % 100 != 0 <==> (f / 10 % 10 != 0 || f % 10 != 0));
            assert(s@ =~= sign + nat_text((m / 10000) as nat) + frac_text(f as int));
        }
        s
    }
}

} // verus!
