//! Shared utilities of all text-format parsers: character/string conversion,
//! decimal number rendering and scanning, non-destructive line splitting and
//! trimming, and the merging of consecutive filler parts.

use vstd::prelude::*;

verus! {

// ////////////////////////////////////////////////////////////////////////////////////////////////
// characters and strings

/// Exact (character for character) conversion between a string slice and a
/// character vector.
pub fn str_to_chars(s: &str) -> (v: Vec<char>)
    ensures
        v@ == s@,
{
    let n: usize = s.unicode_len();
    let mut v: Vec<char> = Vec::new();
    let mut i: usize = 0;
    while i < n
        invariant
            i <= n,
            n == s@.len(),
            v@ == s@.subrange(0, i as int),
        decreases n - i,
    {
        v.push(s.get_char(i));
        i += 1;
        assert(v@ =~= s@.subrange(0, i as int));
    }
    assert(v@ =~= s@);
    v
}

/// Appends one character to a string.
///
/// Relies on `String::push`: appends exactly the given character.
#[verifier::external_body]
fn push_char(s: &mut String, c: char)
    ensures
        final(s)@ == old(s)@.push(c),
{
    s.push(c);
}

/// Exact conversion of a character vector to a string.
pub fn chars_to_string(v: &Vec<char>) -> (s: String)
    ensures
        s@ == v@,
{
    let mut s = String::new();
    let mut i: usize = 0;
    while i < v.len()
        invariant
            i <= v@.len(),
            s@ == v@.subrange(0, i as int),
        decreases v@.len() - i,
    {
        push_char(&mut s, v[i]);
        i += 1;
        assert(s@ =~= v@.subrange(0, i as int));
    }
    assert(s@ =~= v@);
    s
}

// ////////////////////////////////////////////////////////////////////////////////////////////////
// decimal digits

/// Is `c` a decimal digit?
pub open spec fn is_digit(c: char) -> bool {
    '0' <= c && c <= '9'
}

/// The numerical value of a digit character.
pub open spec fn digit_val(c: char) -> int {
    c as int - '0' as int
}

/// The digit character for a value in [0, 9].
pub open spec fn digit_char(d: int) -> char {
    if d == 0 {
        '0'
    } else if d == 1 {
        '1'
    } else if d == 2 {
        '2'
    } else if d == 3 {
        '3'
    } else if d == 4 {
        '4'
    } else if d == 5 {
        '5'
    } else if d == 6 {
        '6'
    } else if d == 7 {
        '7'
    } else if d == 8 {
        '8'
    } else {
        '9'
    }
}

/// The (unsigned) decimal rendering of a number, without leading zeros.
pub open spec fn dec_str(n: int) -> Seq<char>
    decreases n,
{
    if n < 10 {
        seq![digit_char(n)]
    } else {
        dec_str(n / 10).push(digit_char(n % 10))
    }
}

/// The decimal rendering of a number, left-padded with zeros to at least `width` characters.
pub open spec fn dec_str_pad(n: int, width: int) -> Seq<char> {
    if dec_str(n).len() >= width {
        dec_str(n)
    } else {
        Seq::new((width - dec_str(n).len()) as nat, |i: int| '0') + dec_str(n)
    }
}

/// The value of a digit string (most significant digit first).
pub open spec fn dec_val(s: Seq<char>) -> int
    decreases s.len(),
{
    if s.len() == 0 {
        0
    } else {
        dec_val(s.drop_last()) * 10 + digit_val(s.last())
    }
}

/// Do all characters of `s` satisfy `is_digit`?
pub open spec fn all_digits(s: Seq<char>) -> bool {
    forall|i: int| 0 <= i < s.len() ==> is_digit(#[trigger] s[i])
}

/// Exec digit test.
pub fn digit_check(c: char) -> (b: bool)
    ensures
        b == is_digit(c),
{
    '0' <= c && c <= '9'
}

/// The digit character of a value in [0, 9], as executable code.
fn digit_to_char(d: u64) -> (c: char)
    requires
        d < 10,
    ensures
        c == digit_char(d as int),
{
    if d == 0 {
        '0'
    } else if d == 1 {
        '1'
    } else if d == 2 {
        '2'
    } else if d == 3 {
        '3'
    } else if d == 4 {
        '4'
    } else if d == 5 {
        '5'
    } else if d == 6 {
        '6'
    } else if d == 7 {
        '7'
    } else if d == 8 {
        '8'
    } else {
        '9'
    }
}

/// Renders `n` in decimal (no sign, no leading zeros).
pub fn render_u64(n: u64) -> (v: Vec<char>)
    ensures
        v@ == dec_str(n as int),
{
    let mut digits: Vec<char> = Vec::new();
    let mut m: u64 = n;
    // collect digits, least significant first
    while m >= 10
        invariant
            dec_str(n as int) == dec_str(m as int) + digits@.reverse(),
        decreases m,
    {
        let ghost pre = digits@;
        digits.push(digit_to_char(m % 10));
        proof {
            assert(digits@.reverse() =~= seq![digit_char(m as int % 10)] + pre.reverse());
            assert(dec_str(m as int / 10) + digits@.reverse() =~= dec_str(m as int / 10).push(
                digit_char(m as int % 10)) + pre.reverse());
        }
        m = m / 10;
    }
    let ghost pre = digits@;
    digits.push(digit_to_char(m));
    proof {
        assert(dec_str(m as int) =~= seq![digit_char(m as int)]);
        assert(digits@.reverse() =~= seq![digit_char(m as int)] + pre.reverse());
        assert(dec_str(n as int) =~= digits@.reverse());
    }
    // reverse into most-significant-first order
    let mut v: Vec<char> = Vec::new();
    let mut i: usize = digits.len();
    while i > 0
        invariant
            i <= digits@.len(),
            v@ == digits@.reverse().take(digits@.len() - i),
        decreases i,
    {
        i -= 1;
        v.push(digits[i]);
        proof {
            assert(v@ =~= digits@.reverse().take(digits@.len() - i));
        }
    }
    proof {
        assert(v@ =~= digits@.reverse());
    }
    v
}

/// Renders `n` in decimal, left-padded with zeros to at least `width` characters.
pub fn render_u64_pad(n: u64, width: usize) -> (v: Vec<char>)
    ensures
        v@ == dec_str_pad(n as int, width as int),
{
    let mut digits = render_u64(n);
    let ghost ds = digits@;
    let mut v: Vec<char> = Vec::new();
    let mut i: usize = digits.len();
    while i < width
        invariant
            ds.len() <= i <= vstd::math::max(width as int, ds.len() as int),
            v@ =~= Seq::new((i - ds.len()) as nat, |j: int| '0'),
        decreases width - i,
    {
        v.push('0');
        i += 1;
        assert(v@ =~= Seq::new((i - ds.len()) as nat, |j: int| '0'));
    }
    v.append(&mut digits);
    proof {
        assert(v@ =~= dec_str_pad(n as int, width as int));
    }
    v
}

/// The decimal rendering of a signed number.
pub open spec fn int_str(n: int) -> Seq<char> {
    if n < 0 {
        seq!['-'] + dec_str(-n)
    } else {
        dec_str(n)
    }
}

/// Renders a signed number in decimal.
pub fn render_i64(n: i64) -> (v: Vec<char>)
    ensures
        v@ == int_str(n as int),
{
    if n >= 0 {
        let r = render_u64(n as u64);
        r
    } else {
        let mag: u64 = (-(n as i128)) as u64;
        let mut v: Vec<char> = Vec::new();
        v.push('-');
        let mut digits = render_u64(mag);
        v.append(&mut digits);
        assert(v@ =~= int_str(n as int));
        v
    }
}

/// A rendered number consists of digits.
pub proof fn lemma_dec_str_digits(n: int)
    requires
        n >= 0,
    ensures
        all_digits(dec_str(n)),
        dec_str(n).len() >= 1,
    decreases n,
{
    if n < 10 {
        assert(is_digit(digit_char(n)));
        assert(forall|j: int| 0 <= j < dec_str(n).len() ==> dec_str(n)[j] == digit_char(n));
    } else {
        lemma_dec_str_digits(n / 10);
        assert forall|j: int| 0 <= j < dec_str(n).len() implies is_digit(
            #[trigger] dec_str(n)[j]) by {
            if j < dec_str(n / 10).len() {
                assert(dec_str(n)[j] == dec_str(n / 10)[j]);
            } else {
                assert(dec_str(n)[j] == digit_char(n % 10));
            }
        }
    }
}

/// The value of a concatenation of digit strings.
pub proof fn lemma_dec_val_concat(a: Seq<char>, b: Seq<char>)
    ensures
        dec_val(a + b) == dec_val(a) * vstd::arithmetic::power::pow(10, b.len()) + dec_val(b),
    decreases b.len(),
{
    if b.len() == 0 {
        assert(a + b =~= a);
        vstd::arithmetic::power::lemma_pow0(10);
    } else {
        lemma_dec_val_concat(a, b.drop_last());
        assert((a + b).drop_last() =~= a + b.drop_last());
        assert((a + b).last() == b.last());
        let p = vstd::arithmetic::power::pow(10, (b.len() - 1) as nat);
        assert(vstd::arithmetic::power::pow(10, b.len()) == 10 * p) by {
            vstd::arithmetic::power::lemma_pow1(10);
            vstd::arithmetic::power::lemma_pow_adds(10, 1, (b.len() - 1) as nat);
        }
        assert(dec_val(a + b) == (dec_val(a) * p + dec_val(b.drop_last())) * 10 + digit_val(
            b.last()));
        assert((dec_val(a) * p + dec_val(b.drop_last())) * 10 == dec_val(a) * (10 * p) + dec_val(
            b.drop_last()) * 10) by (nonlinear_arith);
    }
}

/// Parsing a rendered number yields the number back.
pub proof fn lemma_dec_str_val(n: int)
    requires
        n >= 0,
    ensures
        dec_val(dec_str(n)) == n,
    decreases n,
{
    if n < 10 {
        let s = dec_str(n);
        assert(s =~= seq![digit_char(n)]);
        assert(s.last() == digit_char(n));
        assert(s.drop_last() =~= Seq::<char>::empty());
        assert(dec_val(s.drop_last()) == 0);
        assert(dec_val(s) == dec_val(s.drop_last()) * 10 + digit_val(s.last()));
        assert(digit_val(digit_char(n)) == n);
    } else {
        lemma_dec_str_val(n / 10);
        let s = dec_str(n);
        assert(s == dec_str(n / 10).push(digit_char(n % 10)));
        assert(s.last() == digit_char(n % 10));
        assert(s.drop_last() =~= dec_str(n / 10));
        assert(dec_val(s) == dec_val(s.drop_last()) * 10 + digit_val(s.last()));
        assert(digit_val(digit_char(n % 10)) == n % 10);
        vstd::arithmetic::div_mod::lemma_fundamental_div_mod(n, 10);
        assert(n == 10 * (n / 10) + n % 10);
        assert(dec_val(s.drop_last()) * 10 == 10 * (n / 10));
    }
}

/// Zero-padding does not change a number's digits-only character or value.
pub proof fn lemma_dec_str_pad_val(n: int, width: int)
    requires
        n >= 0,
    ensures
        all_digits(dec_str_pad(n, width)),
        dec_val(dec_str_pad(n, width)) == n,
        dec_str_pad(n, width).len() >= 1,
{
    lemma_dec_str_digits(n);
    lemma_dec_str_val(n);
    if dec_str(n).len() < width {
        let z = Seq::new((width - dec_str(n).len()) as nat, |i: int| '0');
        assert(forall|j: int| 0 <= j < z.len() ==> #[trigger] z[j] == '0');
        assert(dec_val(z) == 0 && all_digits(z)) by {
            lemma_dec_val_zeros(z);
        }
        lemma_dec_val_concat(z, dec_str(n));
        assert(dec_val(z + dec_str(n)) == 0 * vstd::arithmetic::power::pow(
            10,
            dec_str(n).len(),
        ) + n) by {
            assert(0 * vstd::arithmetic::power::pow(10, dec_str(n).len()) == 0) by (
            nonlinear_arith);
        }
        assert forall|j: int| 0 <= j < dec_str_pad(n, width).len() implies is_digit(
            #[trigger] dec_str_pad(n, width)[j]) by {
            if j < z.len() {
                assert(dec_str_pad(n, width)[j] == z[j]);
            } else {
                assert(dec_str_pad(n, width)[j] == dec_str(n)[j - z.len()]);
            }
        }
    }
}

/// An all-zero string has value zero.
proof fn lemma_dec_val_zeros(z: Seq<char>)
    requires
        forall|j: int| 0 <= j < z.len() ==> #[trigger] z[j] == '0',
    ensures
        dec_val(z) == 0,
        all_digits(z),
    decreases z.len(),
{
    if z.len() > 0 {
        assert(forall|j: int| 0 <= j < z.len() - 1 ==> #[trigger] z.drop_last()[j] == z[j]);
        lemma_dec_val_zeros(z.drop_last());
    }
}

/// Copies the characters of `s` in the range `[from, to)`.
pub fn subvec(s: &Vec<char>, from: usize, to: usize) -> (r: Vec<char>)
    requires
        from <= to <= s@.len(),
    ensures
        r@ == s@.subrange(from as int, to as int),
{
    let mut r: Vec<char> = Vec::new();
    let mut i: usize = from;
    while i < to
        invariant
            from <= i <= to <= s@.len(),
            r@ == s@.subrange(from as int, i as int),
        decreases to - i,
    {
        r.push(s[i]);
        i += 1;
        assert(r@ =~= s@.subrange(from as int, i as int));
    }
    r
}

// ////////////////////////////////////////////////////////////////////////////////////////////////
// scanning

/// Is `c` horizontal whitespace (space or tab)?
pub open spec fn is_ws(c: char) -> bool {
    c == ' ' || c == '\t'
}

/// Exec whitespace test.
pub fn ws_check(c: char) -> (b: bool)
    ensures
        b == is_ws(c),
{
    c == ' ' || c == '\t'
}

/// Does the whole sequence consist of whitespace?
pub open spec fn all_ws(s: Seq<char>) -> bool {
    forall|i: int| 0 <= i < s.len() ==> is_ws(#[trigger] s[i])
}

/// The end of the whitespace run beginning at `from`, within `[from, to)`.
pub fn ws_run_end(s: &Vec<char>, from: usize, to: usize) -> (e: usize)
    requires
        from <= to <= s@.len(),
    ensures
        from <= e <= to,
        all_ws(s@.subrange(from as int, e as int)),
        e < to ==> !is_ws(s@[e as int]),
{
    let mut i: usize = from;
    while i < to && ws_check(s[i])
        invariant
            from <= i <= to <= s@.len(),
            forall|j: int| from <= j < i ==> is_ws(#[trigger] s@[j]),
        decreases to - i,
    {
        i += 1;
    }
    assert forall|j: int| 0 <= j < i - from implies is_ws(
        #[trigger] s@.subrange(from as int, i as int)[j]) by {
        assert(s@.subrange(from as int, i as int)[j] == s@[from + j]);
    }
    i
}

/// The start of the whitespace run ending at `to` (exclusive).
pub fn ws_run_start(s: &Vec<char>, from: usize, to: usize) -> (b: usize)
    requires
        from <= to <= s@.len(),
    ensures
        from <= b <= to,
        all_ws(s@.subrange(b as int, to as int)),
        b > from ==> !is_ws(s@[b as int - 1]),
{
    let mut i: usize = to;
    while i > from && ws_check(s[i - 1])
        invariant
            from <= i <= to <= s@.len(),
            forall|j: int| i <= j < to ==> is_ws(#[trigger] s@[j]),
        decreases i,
    {
        i -= 1;
    }
    assert(all_ws(s@.subrange(i as int, to as int))) by {
        assert(forall|j: int|
            0 <= j < to - i ==> #[trigger] s@.subrange(i as int, to as int)[j] == s@[i + j]);
    }
    i
}

/// The end of the digit run beginning at `from`, within `[from, to)`.
pub fn digits_run_end(s: &Vec<char>, from: usize, to: usize) -> (e: usize)
    requires
        from <= to <= s@.len(),
    ensures
        from <= e <= to,
        all_digits(s@.subrange(from as int, e as int)),
        e < to ==> !is_digit(s@[e as int]),
{
    let mut i: usize = from;
    while i < to && digit_check(s[i])
        invariant
            from <= i <= to <= s@.len(),
            forall|j: int| from <= j < i ==> is_digit(#[trigger] s@[j]),
        decreases to - i,
    {
        i += 1;
    }
    assert forall|j: int| 0 <= j < i - from implies is_digit(
        #[trigger] s@.subrange(from as int, i as int)[j]) by {
        assert(s@.subrange(from as int, i as int)[j] == s@[from + j]);
    }
    i
}

/// Length of the digit prefix of `s`.
pub open spec fn digits_prefix_len(s: Seq<char>) -> nat
    decreases s.len(),
{
    if s.len() > 0 && is_digit(s[0]) {
        1 + digits_prefix_len(s.drop_first())
    } else {
        0
    }
}

/// A maximal digit run from the start is exactly the digit prefix.
pub proof fn lemma_digits_prefix(s: Seq<char>, i: int)
    requires
        0 <= i <= s.len(),
        forall|j: int| 0 <= j < i ==> is_digit(#[trigger] s[j]),
        i < s.len() ==> !is_digit(s[i]),
    ensures
        digits_prefix_len(s) == i,
    decreases s.len(),
{
    if s.len() > 0 && is_digit(s[0]) {
        assert(forall|j: int| 0 <= j < i - 1 ==> s.drop_first()[j] == s[j + 1]);
        assert(i >= 1);
        if i - 1 < s.drop_first().len() {
            assert(s.drop_first()[i - 1] == s[i]);
        }
        lemma_digits_prefix(s.drop_first(), i - 1);
    }
}

/// The value of a digit string is never negative.
pub proof fn lemma_dec_val_nonneg(s: Seq<char>)
    requires
        all_digits(s),
    ensures
        dec_val(s) >= 0,
    decreases s.len(),
{
    if s.len() > 0 {
        assert(all_digits(s.drop_last()));
        lemma_dec_val_nonneg(s.drop_last());
    }
}

/// Extending a digit string to the right can only grow its value.
pub proof fn lemma_dec_val_prefix(s: Seq<char>, i: int)
    requires
        all_digits(s),
        0 <= i <= s.len(),
    ensures
        dec_val(s) >= dec_val(s.take(i)),
    decreases s.len() - i,
{
    if i < s.len() {
        lemma_dec_val_prefix(s, i + 1);
        assert(s.take(i + 1).drop_last() =~= s.take(i));
        assert(all_digits(s.take(i)));
        lemma_dec_val_nonneg(s.take(i));
        assert(dec_val(s.take(i + 1)) == dec_val(s.take(i)) * 10 + digit_val(s.take(i + 1).last()));
        assert(digit_val(s.take(i + 1).last()) >= 0);
        assert(dec_val(s.take(i)) * 10 >= dec_val(s.take(i))) by (nonlinear_arith)
            requires
                dec_val(s.take(i)) >= 0,
        ;
    } else {
        assert(s.take(i) =~= s);
    }
}

/// Parses the digit characters `s[from..to]` as a number.
///
/// Returns `None` when the range is empty, contains a non-digit character, or
/// encodes a value that does not fit into a `u64`.
pub fn parse_digits_u64(s: &Vec<char>, from: usize, to: usize) -> (r: Option<u64>)
    requires
        from <= to <= s@.len(),
    ensures
        ({
            let sub = s@.subrange(from as int, to as int);
            match r {
                Some(v) => from < to && all_digits(sub) && v as int == dec_val(sub),
                None => !(from < to && all_digits(sub) && dec_val(sub) <= u64::MAX),
            }
        }),
{
    let ghost sub = s@.subrange(from as int, to as int);
    if from == to {
        return None;
    }
    let mut v: u64 = 0;
    let mut i: usize = from;
    while i < to
        invariant
            from <= i <= to <= s@.len(),
            sub == s@.subrange(from as int, to as int),
            all_digits(sub.take(i - from)),
            v as int == dec_val(sub.take(i - from)),
        decreases to - i,
    {
        let c = s[i];
        if !digit_check(c) {
            proof {
                assert(sub[i - from] == c);
            }
            return None;
        }
        let d: u64 = (c as u32 as u64) - 48;
        proof {
            assert(sub[i - from] == c);
            assert(d as int == digit_val(c));
        }
        if v > (u64::MAX - d) / 10 {
            proof {
                let pre = sub.take(i - from + 1);
                assert(pre.drop_last() =~= sub.take(i - from));
                assert(dec_val(pre) == v as int * 10 + d);
                assert(v as int * 10 + d > u64::MAX) by (nonlinear_arith)
                    requires
                        v as int > (u64::MAX - d as int) / 10,
                        0 <= d < 10,
                ;
                if all_digits(sub) {
                    lemma_dec_val_prefix(sub, i - from + 1);
                    assert(dec_val(sub) >= dec_val(pre));
                }
            }
            return None;
        }
        proof {
            assert(v as int * 10 + d <= u64::MAX) by (nonlinear_arith)
                requires
                    v as int <= (u64::MAX - d as int) / 10,
                    0 <= d < 10,
            ;
        }
        v = v * 10 + d;
        i += 1;
        proof {
            assert(sub.take(i - from).drop_last() =~= sub.take(i - from - 1));
            assert(all_digits(sub.take(i - from)));
        }
    }
    proof {
        assert(sub.take(to - from) =~= sub);
    }
    Some(v)
}

// ////////////////////////////////////////////////////////////////////////////////////////////////
// signed numbers

/// The end of an optionally signed digit run starting at `from`.
pub open spec fn num_end(s: Seq<char>, from: int) -> int {
    let d0 = if from < s.len() && (s[from] == '-' || s[from] == '+') {
        from + 1
    } else {
        from
    };
    d0 + digits_prefix_len(s.skip(d0))
}

/// Scans an optionally signed digit run.
pub fn scan_num(s: &Vec<char>, from: usize) -> (e: usize)
    requires
        from <= s@.len(),
    ensures
        from <= e <= s@.len(),
        e as int == num_end(s@, from as int),
{
    let n = s.len();
    let d0: usize = if from < n && (s[from] == '-' || s[from] == '+') {
        from + 1
    } else {
        from
    };
    let e = digits_run_end(s, d0, n);
    proof {
        let tail = s@.skip(d0 as int);
        assert(forall|j: int| 0 <= j < tail.len() ==> #[trigger] tail[j] == s@[d0 + j]);
        assert forall|j: int| 0 <= j < e - d0 implies is_digit(#[trigger] tail[j]) by {
            assert(s@.subrange(d0 as int, e as int)[j] == s@[d0 + j]);
        }
        if (e as int) - d0 < tail.len() {
            assert(tail[e - d0] == s@[e as int]);
        }
        lemma_digits_prefix(tail, e - d0);
    }
    e
}

/// The value of an optionally signed decimal string, if it is one and the
/// value fits into an `i64` (the behaviour of `str::parse::<i64>`).
pub open spec fn spec_number_i64(s: Seq<char>) -> Option<i64> {
    let signed = s.len() > 0 && (s[0] == '-' || s[0] == '+');
    let neg = s.len() > 0 && s[0] == '-';
    let ds = if signed {
        s.drop_first()
    } else {
        s
    };
    if ds.len() > 0 && all_digits(ds) {
        if neg {
            if dec_val(ds) <= 0x8000000000000000 {
                Some((-dec_val(ds)) as i64)
            } else {
                None
            }
        } else {
            if dec_val(ds) <= i64::MAX {
                Some(dec_val(ds) as i64)
            } else {
                None
            }
        }
    } else {
        None
    }
}

/// Parses the characters `s[from..to]` as an optionally signed decimal number.
pub fn parse_i64_chars(s: &Vec<char>, from: usize, to: usize) -> (r: Option<i64>)
    requires
        from <= to <= s@.len(),
    ensures
        r == spec_number_i64(s@.subrange(from as int, to as int)),
{
    let ghost sub = s@.subrange(from as int, to as int);
    if from == to {
        return None;
    }
    let signed = s[from] == '-' || s[from] == '+';
    let neg = s[from] == '-';
    let dfrom = if signed {
        from + 1
    } else {
        from
    };
    proof {
        if signed {
            assert(sub.drop_first() =~= s@.subrange(dfrom as int, to as int));
        } else {
            assert(sub =~= s@.subrange(dfrom as int, to as int));
        }
    }
    match parse_digits_u64(s, dfrom, to) {
        None => None,
        Some(v) => {
            if neg {
                if v < 9223372036854775808u64 {
                    Some(-(v as i64))
                } else if v == 9223372036854775808u64 {
                    Some(i64::MIN)
                } else {
                    None
                }
            } else {
                if v <= 9223372036854775807u64 {
                    Some(v as i64)
                } else {
                    None
                }
            }
        },
    }
}

/// Matches a positive or negative integer number, as the whole string.
/// Like `str::parse::<i64>`, a leading `+` is accepted too.
pub fn number_i64(s: &str) -> (r: Option<i64>)
    ensures
        r == spec_number_i64(s@),
{
    let v = str_to_chars(s);
    let n = v.len();
    proof {
        assert(v@.subrange(0, v@.len() as int) =~= s@);
    }
    parse_i64_chars(&v, 0, n)
}

// ////////////////////////////////////////////////////////////////////////////////////////////////
// non-destructive line splitting

/// Is `c` a line terminator character?
pub open spec fn is_eol_char(c: char) -> bool {
    c == '\r' || c == '\n'
}

/// Exec line terminator test.
pub fn eol_check(c: char) -> (b: bool)
    ensures
        b == is_eol_char(c),
{
    c == '\r' || c == '\n'
}

/// The index of the first line terminator character, or the length if there is none.
pub open spec fn find_eol(s: Seq<char>) -> nat
    decreases s.len(),
{
    if s.len() == 0 {
        0
    } else if is_eol_char(s[0]) {
        0
    } else {
        1 + find_eol(s.drop_first())
    }
}

pub proof fn lemma_find_eol(s: Seq<char>)
    ensures
        0 <= find_eol(s) <= s.len(),
        forall|j: int| 0 <= j < find_eol(s) ==> !is_eol_char(#[trigger] s[j]),
        find_eol(s) < s.len() ==> is_eol_char(s[find_eol(s) as int]),
    decreases s.len(),
{
    if s.len() > 0 && !is_eol_char(s[0]) {
        lemma_find_eol(s.drop_first());
        assert forall|j: int| 0 <= j < find_eol(s) implies !is_eol_char(#[trigger] s[j]) by {
            if j > 0 {
                assert(s.drop_first()[j - 1] == s[j]);
                assert(!is_eol_char(s.drop_first()[j - 1]));
            }
        }
    }
}

/// Splitting a text into its lines, keeping each line's terminator
/// (`\n`, `\r\n` or a bare `\r`; the final line has an empty terminator).
pub open spec fn spec_split_lines(s: Seq<char>) -> Seq<(Seq<char>, Seq<char>)>
    decreases s.len(),
{
    if s.len() == 0 {
        Seq::empty()
    } else {
        let i = find_eol(s) as int;
        if i >= s.len() {
            seq![(s, Seq::<char>::empty())]
        } else if s[i] == '\r' && i + 1 < s.len() && s[i + 1] == '\n' {
            seq![(s.take(i), seq!['\r', '\n'])] + spec_split_lines(s.skip(i + 2))
        } else {
            seq![(s.take(i), seq![s[i]])] + spec_split_lines(s.skip(i + 1))
        }
    }
}

/// The views of a vector of (line, terminator) pairs.
pub open spec fn line_views(v: Seq<(Vec<char>, Vec<char>)>) -> Seq<(Seq<char>, Seq<char>)> {
    v.map(|i: int, p: (Vec<char>, Vec<char>)| (p.0@, p.1@))
}

/// Concatenation of all line contents and terminators.
pub open spec fn join_lines(v: Seq<(Seq<char>, Seq<char>)>) -> Seq<char>
    decreases v.len(),
{
    if v.len() == 0 {
        Seq::empty()
    } else {
        v[0].0 + v[0].1 + join_lines(v.drop_first())
    }
}

/// Splitting and re-joining reproduces the input exactly.
pub proof fn lemma_split_lines_join(s: Seq<char>)
    ensures
        join_lines(spec_split_lines(s)) == s,
    decreases s.len(),
{
    if s.len() == 0 {
        assert(join_lines(spec_split_lines(s)) =~= s);
    } else {
        let i = find_eol(s) as int;
        lemma_find_eol(s);
        if i >= s.len() {
            assert(spec_split_lines(s) =~= seq![(s, Seq::<char>::empty())]);
            assert(spec_split_lines(s).drop_first() =~= Seq::<(Seq<char>, Seq<char>)>::empty());
            assert(join_lines(spec_split_lines(s)) == s + Seq::<char>::empty() + join_lines(
                spec_split_lines(s).drop_first()));
            assert(join_lines(spec_split_lines(s)) =~= s);
        } else if s[i] == '\r' && i + 1 < s.len() && s[i + 1] == '\n' {
            lemma_split_lines_join(s.skip(i + 2));
            assert(spec_split_lines(s).drop_first() =~= spec_split_lines(s.skip(i + 2)));
            assert(join_lines(spec_split_lines(s)) =~= s.take(i) + seq!['\r', '\n'] + s.skip(i + 2));
            assert(s.take(i) + seq!['\r', '\n'] + s.skip(i + 2) =~= s);
        } else {
            lemma_split_lines_join(s.skip(i + 1));
            assert(spec_split_lines(s).drop_first() =~= spec_split_lines(s.skip(i + 1)));
            assert(join_lines(spec_split_lines(s)) =~= s.take(i) + seq![s[i]] + s.skip(i + 1));
            assert(s.take(i) + seq![s[i]] + s.skip(i + 1) =~= s);
        }
    }
}

/// Line contents hold no terminator characters, and a terminator is empty
/// only for the final line.
pub proof fn lemma_split_lines_shape(s: Seq<char>)
    ensures
        forall|k: int|
            0 <= k < spec_split_lines(s).len() ==> {
                let p = #[trigger] spec_split_lines(s)[k];
                &&& forall|j: int| 0 <= j < p.0.len() ==> !is_eol_char(#[trigger] p.0[j])
                &&& (p.1 =~= Seq::<char>::empty() || p.1 =~= seq!['\n'] || p.1 =~= seq!['\r']
                    || p.1 =~= seq!['\r', '\n'])
                &&& (p.1.len() == 0 ==> k == spec_split_lines(s).len() - 1)
            },
    decreases s.len(),
{
    if s.len() > 0 {
        let i = find_eol(s) as int;
        lemma_find_eol(s);
        if i >= s.len() {
            assert(s.take(i) =~= s);
            assert(forall|j: int| 0 <= j < i ==> !is_eol_char(#[trigger] s[j]));
        } else if s[i] == '\r' && i + 1 < s.len() && s[i + 1] == '\n' {
            lemma_split_lines_shape(s.skip(i + 2));
            assert(forall|k: int|
                1 <= k < spec_split_lines(s).len() ==> spec_split_lines(s)[k]
                    == spec_split_lines(s.skip(i + 2))[k - 1]);
        } else {
            lemma_split_lines_shape(s.skip(i + 1));
            assert(forall|k: int|
                1 <= k < spec_split_lines(s).len() ==> spec_split_lines(s)[k]
                    == spec_split_lines(s.skip(i + 1))[k - 1]);
        }
    }
}

/// The exec scan for the first line terminator at or after `from`.
fn find_eol_from(s: &Vec<char>, from: usize) -> (e: usize)
    requires
        from <= s@.len(),
    ensures
        from <= e <= s@.len(),
        e - from == find_eol(s@.skip(from as int)),
{
    let mut i: usize = from;
    while i < s.len() && !eol_check(s[i])
        invariant
            from <= i <= s@.len(),
            find_eol(s@.skip(from as int)) == (i - from) + find_eol(s@.skip(i as int)),
        decreases s@.len() - i,
    {
        proof {
            assert(s@.skip(i as int).drop_first() =~= s@.skip(i as int + 1));
            assert(s@.skip(i as int)[0] == s@[i as int]);
        }
        i += 1;
    }
    proof {
        if i < s.len() {
            assert(s@.skip(i as int)[0] == s@[i as int]);
        }
    }
    i
}

/// Iterates over all lines in `s` and returns every line together with its
/// line ending, so that the original text can be reconstructed exactly.
///
/// A bare `\r` (not within `\r\n`) is also accepted as a line ending.
pub fn get_lines_chars(s: &Vec<char>) -> (r: Vec<(Vec<char>, Vec<char>)>)
    ensures
        line_views(r@) == spec_split_lines(s@),
{
    let mut r: Vec<(Vec<char>, Vec<char>)> = Vec::new();
    let mut p: usize = 0;
    proof {
        assert(s@.skip(0) =~= s@);
        assert(line_views(r@) =~= Seq::<(Seq<char>, Seq<char>)>::empty());
    }
    while p < s.len()
        invariant
            p <= s@.len(),
            spec_split_lines(s@) =~= line_views(r@) + spec_split_lines(s@.skip(p as int)),
        decreases s@.len() - p,
    {
        let e = find_eol_from(s, p);
        let ghost rest = s@.skip(p as int);
        proof {
            lemma_find_eol(rest);
            assert(rest.len() > 0);
            assert(forall|j: int| 0 <= j < rest.len() ==> rest[j] == s@[p + j]);
        }
        let content = subvec(s, p, e);
        proof {
            assert(content@ =~= rest.take(e - p));
        }
        let mut np: usize;
        let mut term: Vec<char> = Vec::new();
        if e == s.len() {
            np = e;
            proof {
                assert(rest.skip(rest.len() as int) =~= s@.skip(np as int));
                assert(content@ =~= rest);
                assert(spec_split_lines(rest) =~= seq![(content@, term@)] + spec_split_lines(
                    s@.skip(np as int)));
            }
        } else if s[e] == '\r' && e + 1 < s.len() && s[e + 1] == '\n' {
            term.push('\r');
            term.push('\n');
            np = e + 2;
            proof {
                assert(rest[e - p] == '\r' && rest[e - p + 1] == '\n');
                assert(rest.skip(e - p + 2) =~= s@.skip(np as int));
                assert(term@ =~= seq!['\r', '\n']);
                assert(spec_split_lines(rest) =~= seq![(content@, term@)] + spec_split_lines(
                    s@.skip(np as int)));
            }
        } else {
            term.push(s[e]);
            np = e + 1;
            proof {
                assert(rest[e - p] == s@[e as int]);
                assert(rest.skip(e - p + 1) =~= s@.skip(np as int));
                assert(term@ =~= seq![rest[e - p]]);
                assert(!(rest[e - p] == '\r' && e - p + 1 < rest.len() && rest[e - p + 1] == '\n'));
                assert(spec_split_lines(rest) =~= seq![(content@, term@)] + spec_split_lines(
                    s@.skip(np as int)));
            }
        }
        let ghost prev = r@;
        r.push((content, term));
        proof {
            assert(line_views(r@) =~= line_views(prev) + seq![(content@, term@)]);
            assert(spec_split_lines(s@) =~= line_views(r@) + spec_split_lines(s@.skip(np as int)));
        }
        p = np;
    }
    proof {
        assert(spec_split_lines(s@.skip(p as int)) =~= Seq::<(Seq<char>, Seq<char>)>::empty());
        assert(spec_split_lines(s@) =~= line_views(r@));
    }
    r
}

/// Iterates over all lines in `s` and returns every line together with its
/// line ending, so that the original file can be reconstructed exactly
/// (the last line has an empty ending).
pub fn get_lines_non_destructive(s: &str) -> (r: Vec<(String, String)>)
    ensures
        r@.map(|i: int, p: (String, String)| (p.0@, p.1@)) == spec_split_lines(s@),
{
    let chars = str_to_chars(s);
    let pairs = get_lines_chars(&chars);
    let ghost lvs = spec_split_lines(s@);
    let mut r: Vec<(String, String)> = Vec::new();
    let mut i: usize = 0;
    let n = pairs.len();
    proof {
        assert(r@.map(|i: int, p: (String, String)| (p.0@, p.1@)) =~= lvs.take(0));
    }
    while i < n
        invariant
            i <= n,
            n == pairs@.len(),
            line_views(pairs@) == lvs,
            r@.map(|i: int, p: (String, String)| (p.0@, p.1@)) == lvs.take(i as int),
        decreases n - i,
    {
        let ghost prev = r@;
        let p = &pairs[i];
        proof {
            assert(line_views(pairs@)[i as int] == (p.0@, p.1@));
        }
        let pair = (chars_to_string(&p.0), chars_to_string(&p.1));
        let ghost pv = (pair.0@, pair.1@);
        r.push(pair);
        i += 1;
        proof {
            assert(prev.map(|i: int, p: (String, String)| (p.0@, p.1@)).len() == prev.len());
            assert((r@[i - 1].0@, r@[i - 1].1@) == pv);
            assert(r@.map(|i: int, p: (String, String)| (p.0@, p.1@)) =~= lvs.take(i as int));
        }
    }
    proof {
        assert(lvs.take(n as int) =~= lvs);
    }
    r
}

// ////////////////////////////////////////////////////////////////////////////////////////////////
// non-destructive trimming

/// Length of the whitespace prefix of `s`.
pub open spec fn ws_prefix_end(s: Seq<char>) -> nat
    decreases s.len(),
{
    if s.len() > 0 && is_ws(s[0]) {
        1 + ws_prefix_end(s.drop_first())
    } else {
        0
    }
}

/// Start of the whitespace suffix of `s`.
pub open spec fn ws_suffix_start(s: Seq<char>) -> nat
    decreases s.len(),
{
    if s.len() > 0 && is_ws(s.last()) {
        ws_suffix_start(s.drop_last())
    } else {
        s.len()
    }
}

/// A maximal whitespace run from the start is exactly the whitespace prefix.
pub proof fn lemma_ws_prefix(s: Seq<char>, i: int)
    requires
        0 <= i <= s.len(),
        forall|j: int| 0 <= j < i ==> is_ws(#[trigger] s[j]),
        i < s.len() ==> !is_ws(s[i]),
    ensures
        ws_prefix_end(s) == i,
    decreases s.len(),
{
    if s.len() > 0 && is_ws(s[0]) {
        assert(forall|j: int| 0 <= j < i - 1 ==> s.drop_first()[j] == s[j + 1]);
        assert(i >= 1);
        if i - 1 < s.drop_first().len() {
            assert(s.drop_first()[i - 1] == s[i]);
        }
        lemma_ws_prefix(s.drop_first(), i - 1);
    }
}

/// A maximal whitespace run at the end is exactly the whitespace suffix.
pub proof fn lemma_ws_suffix(s: Seq<char>, i: int)
    requires
        0 <= i <= s.len(),
        forall|j: int| i <= j < s.len() ==> is_ws(#[trigger] s[j]),
        i > 0 ==> !is_ws(s[i - 1]),
    ensures
        ws_suffix_start(s) == i,
    decreases s.len(),
{
    if s.len() > 0 && is_ws(s.last()) {
        assert(i < s.len());
        assert(forall|j: int| 0 <= j < s.len() - 1 ==> s.drop_last()[j] == s[j]);
        lemma_ws_suffix(s.drop_last(), i);
    }
}

/// The bounds of the whitespace-trimmed middle of `s[from..to]`:
/// the pair `(a, b)` such that `s[from..a]` and `s[b..to]` are the maximal
/// whitespace prefix and suffix runs.
pub fn trim_bounds(s: &Vec<char>, from: usize, to: usize) -> (r: (usize, usize))
    requires
        from <= to <= s@.len(),
    ensures
        from <= r.0 <= r.1 <= to,
        r.0 - from == ws_prefix_end(s@.subrange(from as int, to as int)),
        r.1 - from == if ws_suffix_start(s@.subrange(from as int, to as int))
            < ws_prefix_end(s@.subrange(from as int, to as int)) {
            ws_prefix_end(s@.subrange(from as int, to as int))
        } else {
            ws_suffix_start(s@.subrange(from as int, to as int))
        },
{
    let ghost sub = s@.subrange(from as int, to as int);
    let a = ws_run_end(s, from, to);
    proof {
        assert(forall|j: int| 0 <= j < sub.len() ==> #[trigger] sub[j] == s@[from + j]);
        assert forall|j: int| 0 <= j < a - from implies is_ws(#[trigger] sub[j]) by {
            assert(s@.subrange(from as int, a as int)[j] == s@[from + j]);
            assert(is_ws(s@.subrange(from as int, a as int)[j]));
        }
        if (a as int) - from < sub.len() {
            assert(sub[a - from] == s@[a as int]);
        }
        lemma_ws_prefix(sub, a - from);
    }
    if a == to {
        proof {
            if sub.len() > 0 {
                lemma_ws_suffix(sub, 0);
            }
        }
        return (a, a);
    }
    let b = ws_run_start(s, a, to);
    proof {
        assert forall|j: int| b - from <= j < sub.len() implies is_ws(#[trigger] sub[j]) by {
            assert(s@.subrange(b as int, to as int)[from + j - b] == s@[from + j]);
            assert(is_ws(s@.subrange(b as int, to as int)[from + j - b]));
        }
        if b > a {
            assert(sub[b - from - 1] == s@[b - 1]);
            assert(!is_ws(sub[b - from - 1]));
            lemma_ws_suffix(sub, b - from);
        } else {
            assert(b == a);
            assert(!is_ws(sub[a - from]));
            assert(is_ws(sub[a - from]));
        }
    }
    (a, b)
}

/// Trim a string left and right, but also preserve the whitespace characters.
/// The second element of the returned tuple contains the non-whitespace string.
#[verifier::rlimit(50)]
pub fn trim_non_destructive(s: &str) -> (r: (String, String, String))
    ensures
        r.0@ + r.1@ + r.2@ == s@,
        r.0@ == s@.take(ws_prefix_end(s@) as int),
        all_ws(r.0@),
        all_ws(r.2@),
        r.1@.len() > 0 ==> !is_ws(r.1@[0]) && !is_ws(r.1@.last()),
{
    let v = str_to_chars(s);
    proof {
        assert(v@.subrange(0, v@.len() as int) =~= v@);
    }
    let n = v.len();
    let (a, b) = trim_bounds(&v, 0, n);
    let lead = chars_to_string(&subvec(&v, 0, a));
    let mid = chars_to_string(&subvec(&v, a, b));
    let tail = chars_to_string(&subvec(&v, b, n));
    proof {
        assert(lead@ + mid@ + tail@ =~= s@);
        lemma_ws_run_facts(s@, a as int, b as int);
    }
    (lead, mid, tail)
}

/// Helper facts about the trim bounds of a whole sequence.
proof fn lemma_ws_run_facts(s: Seq<char>, a: int, b: int)
    requires
        0 <= a <= b <= s.len(),
        a == ws_prefix_end(s),
        b == if ws_suffix_start(s) < ws_prefix_end(s) {
            ws_prefix_end(s)
        } else {
            ws_suffix_start(s)
        },
    ensures
        all_ws(s.take(a)),
        all_ws(s.skip(b)),
        b > a ==> !is_ws(s[a]) && !is_ws(s[b - 1]),
    decreases s.len(),
{
    lemma_ws_prefix_all(s);
    lemma_ws_suffix_all(s);
    if ws_suffix_start(s) < ws_prefix_end(s) {
        let p = ws_prefix_end(s) as int;
        let q = ws_suffix_start(s) as int;
        if p < s.len() {
            assert(s.skip(q)[p - q] == s[p]);
            assert(is_ws(s.skip(q)[p - q]));
            assert(false);
        }
        assert(s.skip(b) =~= Seq::<char>::empty());
    }
}

/// The whitespace prefix is whitespace, and ends at a non-whitespace character.
pub proof fn lemma_ws_prefix_all(s: Seq<char>)
    ensures
        all_ws(s.take(ws_prefix_end(s) as int)),
        ws_prefix_end(s) <= s.len(),
        ws_prefix_end(s) < s.len() ==> !is_ws(s[ws_prefix_end(s) as int]),
    decreases s.len(),
{
    if s.len() > 0 && is_ws(s[0]) {
        lemma_ws_prefix_all(s.drop_first());
        let a = ws_prefix_end(s) as int;
        assert forall|j: int| 0 <= j < a implies is_ws(#[trigger] s[j]) by {
            if j > 0 {
                assert(s.drop_first().take(a - 1)[j - 1] == s.drop_first()[j - 1]);
                assert(is_ws(s.drop_first().take(a - 1)[j - 1]));
                assert(s.drop_first()[j - 1] == s[j]);
            }
        }
        assert forall|j: int| 0 <= j < a implies is_ws(#[trigger] s.take(a)[j]) by {
            assert(s.take(a)[j] == s[j]);
        }
        if a < s.len() {
            assert(s.drop_first()[a - 1] == s[a]);
        }
    }
}

/// The whitespace suffix is whitespace, and starts after a non-whitespace character.
pub proof fn lemma_ws_suffix_all(s: Seq<char>)
    ensures
        all_ws(s.skip(ws_suffix_start(s) as int)),
        ws_suffix_start(s) <= s.len(),
        ws_suffix_start(s) > 0 ==> !is_ws(s[ws_suffix_start(s) as int - 1]),
    decreases s.len(),
{
    if s.len() > 0 && is_ws(s.last()) {
        lemma_ws_suffix_all(s.drop_last());
        let b = ws_suffix_start(s) as int;
        assert forall|j: int| b <= j < s.len() implies is_ws(#[trigger] s[j]) by {
            if j < s.len() - 1 {
                assert(s.drop_last().skip(b)[j - b] == s.drop_last()[j]);
                assert(is_ws(s.drop_last().skip(b)[j - b]));
                assert(s.drop_last()[j] == s[j]);
            }
        }
        assert forall|j: int| 0 <= j < s.len() - b implies is_ws(#[trigger] s.skip(b)[j]) by {
            assert(s.skip(b)[j] == s[b + j]);
        }
        if b > 0 {
            assert(s.drop_last()[b - 1] == s[b - 1]);
        }
    }
}

/// The whitespace-trimmed middle of `s` (empty when `s` is all whitespace).
pub open spec fn trimmed(s: Seq<char>) -> Seq<char> {
    let a = ws_prefix_end(s) as int;
    let b = if ws_suffix_start(s) < ws_prefix_end(s) {
        ws_prefix_end(s) as int
    } else {
        ws_suffix_start(s) as int
    };
    s.subrange(a, b)
}

// ////////////////////////////////////////////////////////////////////////////////////////////////
// byte order marks

/// The number of leading byte-order-mark characters (0 or 1).
pub open spec fn spec_bom_skip(s: Seq<char>) -> int {
    if s.len() > 0 && s[0] == '\u{FEFF}' {
        1
    } else {
        0
    }
}

/// The number of characters taken up by a leading byte order mark.
pub fn bom_skip(s: &Vec<char>) -> (k: usize)
    ensures
        k as int == spec_bom_skip(s@),
{
    if s.len() > 0 && s[0] == '\u{FEFF}' {
        1
    } else {
        0
    }
}

/// Returns the string without a leading byte order mark, together with the
/// mark itself. Unchanged (with an empty first component) if the string does
/// not start with one.
pub fn split_bom(s: &str) -> (r: (&str, &str))
    ensures
        r.0@ == s@.take(spec_bom_skip(s@)),
        r.1@ == s@.skip(spec_bom_skip(s@)),
{
    let n = s.unicode_len();
    if n > 0 && s.get_char(0) == '\u{FEFF}' {
        let r = s.substring_char(0, 1);
        let rest = s.substring_char(1, n);
        proof {
            assert(r@ =~= s@.take(1));
            assert(rest@ =~= s@.skip(1));
        }
        (r, rest)
    } else {
        let empty = s.substring_char(0, 0);
        proof {
            assert(empty@ =~= s@.take(0));
            assert(s@ =~= s@.skip(0));
        }
        (empty, s)
    }
}

// ////////////////////////////////////////////////////////////////////////////////////////////////
// merging consecutive filler parts

/// A file part that may be a filler (verbatim text kept only so that the
/// original file can be reconstructed). Two consecutive fillers can be merged
/// into one, which keeps reconstructed files minimal and deterministic.
pub trait MergablePart: View + Sized {
    /// The filler text of a part's view, if the part is a filler.
    spec fn as_filler(v: Self::V) -> Option<Seq<char>>;

    /// The view of a filler part holding the given text.
    spec fn mk_filler(t: Seq<char>) -> Self::V;

    /// The textual rendering of a part (for a filler: its text verbatim).
    spec fn render_view(v: Self::V) -> Seq<char>;

    /// `mk_filler` makes a filler holding exactly the given text.
    proof fn lemma_mk_filler(t: Seq<char>)
        ensures
            Self::as_filler(Self::mk_filler(t)) == Some(t),
            Self::render_view(Self::mk_filler(t)) == t,
    ;

    /// A filler renders to its text.
    proof fn lemma_filler_render(v: Self::V)
        requires
            Self::as_filler(v) is Some,
        ensures
            Self::render_view(v) == Self::as_filler(v)->Some_0,
    ;

    /// Is this part a filler?
    fn is_filler(&self) -> (b: bool)
        ensures
            b == (Self::as_filler(self@) is Some),
    ;

    /// An exact copy of this part.
    fn duplicate(&self) -> (r: Self)
        ensures
            r@ == self@,
    ;

    /// Append the text of the filler `other` to the filler `self`.
    fn merge_filler(&mut self, other: &Self)
        requires
            Self::as_filler(old(self)@) is Some,
            Self::as_filler(other@) is Some,
        ensures
            final(self)@ == Self::mk_filler(
                Self::as_filler(old(self)@)->Some_0 + Self::as_filler(other@)->Some_0,
            ),
    ;
}

/// The views of a sequence of parts.
pub open spec fn part_views<T: View>(v: Seq<T>) -> Seq<T::V> {
    v.map(|i: int, x: T| x@)
}

/// The result of merging every run of consecutive fillers into one filler,
/// preserving everything else in order.
pub open spec fn merged_parts<T: MergablePart>(s: Seq<T::V>) -> Seq<T::V>
    decreases s.len(),
{
    if s.len() == 0 {
        Seq::empty()
    } else {
        let r = merged_parts::<T>(s.drop_last());
        let x = s.last();
        if r.len() > 0 && T::as_filler(r.last()) is Some && T::as_filler(x) is Some {
            r.drop_last().push(
                T::mk_filler(T::as_filler(r.last())->Some_0 + T::as_filler(x)->Some_0),
            )
        } else {
            r.push(x)
        }
    }
}

/// This function does a very common task for non-destructive parsers: merging
/// mergable consecutive file parts.
///
/// Each file has some "filler" parts in it (unimportant information) which only
/// get stored to reconstruct the original file. Two consecutive filler parts
/// (their strings) can be merged. This function abstracts over the specific
/// file part type.
pub fn dedup_string_parts<T: MergablePart>(v: Vec<T>) -> (r: Vec<T>)
    ensures
        part_views(r@) == merged_parts::<T>(part_views(v@)),
{
    let ghost vs = part_views(v@);
    let mut r: Vec<T> = Vec::new();
    let mut i: usize = 0;
    proof {
        assert(part_views(r@) =~= merged_parts::<T>(vs.take(0)));
    }
    while i < v.len()
        invariant
            i <= v@.len(),
            vs == part_views(v@),
            part_views(r@) == merged_parts::<T>(vs.take(i as int)),
        decreases v@.len() - i,
    {
        let part = v[i].duplicate();
        proof {
            assert(vs.take(i + 1).drop_last() =~= vs.take(i as int));
            assert(vs.take(i + 1).last() == part@);
        }
        let ghost prev = r@;
        let n = r.len();
        if n > 0 && r[n - 1].is_filler() && part.is_filler() {
            let mut lastp = r.pop().unwrap();
            proof {
                assert(part_views(prev).last() == lastp@);
                assert(part_views(prev).drop_last() =~= part_views(r@));
            }
            lastp.merge_filler(&part);
            r.push(lastp);
            proof {
                assert(part_views(r@) =~= part_views(prev).drop_last().push(lastp@));
                assert(part_views(r@) =~= merged_parts::<T>(vs.take(i + 1)));
            }
        } else {
            r.push(part);
            proof {
                assert(part_views(r@) =~= part_views(prev).push(part@));
                if part_views(prev).len() > 0 {
                    assert(part_views(prev).last() == prev.last()@);
                }
                assert(part_views(r@) =~= merged_parts::<T>(vs.take(i + 1)));
            }
        }
        i += 1;
    }
    proof {
        assert(vs.take(vs.len() as int) =~= vs);
    }
    r
}

/// Concatenation of the renderings of all parts.
pub open spec fn render_parts<T: MergablePart>(s: Seq<T::V>) -> Seq<char>
    decreases s.len(),
{
    if s.len() == 0 {
        Seq::empty()
    } else {
        render_parts::<T>(s.drop_last()) + T::render_view(s.last())
    }
}

/// Merging fillers does not change what the parts render to.
pub proof fn lemma_merged_render<T: MergablePart>(s: Seq<T::V>)
    ensures
        render_parts::<T>(merged_parts::<T>(s)) == render_parts::<T>(s),
    decreases s.len(),
{
    if s.len() == 0 {
        assert(render_parts::<T>(merged_parts::<T>(s)) =~= render_parts::<T>(s));
    } else {
        lemma_merged_render::<T>(s.drop_last());
        let r = merged_parts::<T>(s.drop_last());
        let x = s.last();
        if r.len() > 0 && T::as_filler(r.last()) is Some && T::as_filler(x) is Some {
            let t = T::as_filler(r.last())->Some_0 + T::as_filler(x)->Some_0;
            T::lemma_mk_filler(t);
            T::lemma_filler_render(r.last());
            T::lemma_filler_render(x);
            let m = r.drop_last().push(T::mk_filler(t));
            assert(m.drop_last() =~= r.drop_last());
            assert(render_parts::<T>(m) == render_parts::<T>(r.drop_last()) + t);
            assert(render_parts::<T>(r) == render_parts::<T>(r.drop_last()) + T::render_view(
                r.last()));
            assert(render_parts::<T>(m) =~= render_parts::<T>(r) + T::render_view(x));
        } else {
            let m = r.push(x);
            assert(m.drop_last() =~= r);
        }
    }
}

/// The merged sequence holds no two consecutive fillers.
pub open spec fn no_adjacent_fillers<T: MergablePart>(s: Seq<T::V>) -> bool {
    forall|i: int|
        0 <= i < s.len() - 1 ==> !(T::as_filler(#[trigger] s[i]) is Some && T::as_filler(
            s[i + 1],
        ) is Some)
}

pub proof fn lemma_merged_no_adjacent<T: MergablePart>(s: Seq<T::V>)
    ensures
        no_adjacent_fillers::<T>(merged_parts::<T>(s)),
    decreases s.len(),
{
    if s.len() > 0 {
        lemma_merged_no_adjacent::<T>(s.drop_last());
        let r = merged_parts::<T>(s.drop_last());
        let x = s.last();
        let m = merged_parts::<T>(s);
        if r.len() > 0 && T::as_filler(r.last()) is Some && T::as_filler(x) is Some {
            let t = T::as_filler(r.last())->Some_0 + T::as_filler(x)->Some_0;
            T::lemma_mk_filler(t);
            assert(m =~= r.drop_last().push(T::mk_filler(t)));
            assert forall|i: int|
                0 <= i < m.len() - 1 implies !(T::as_filler(#[trigger] m[i]) is Some
                && T::as_filler(m[i + 1]) is Some) by {
                assert(m[i] == r[i]);
                if i + 1 < m.len() - 1 {
                    assert(m[i + 1] == r[i + 1]);
                } else {
                    assert(i + 1 == r.len() - 1);
                    assert(!(T::as_filler(r[i]) is Some && T::as_filler(r[i + 1]) is Some));
                    assert(T::as_filler(r.last()) is Some);
                }
            }
        } else {
            assert forall|i: int|
                0 <= i < m.len() - 1 implies !(T::as_filler(#[trigger] m[i]) is Some
                && T::as_filler(m[i + 1]) is Some) by {
                assert(m[i] == r[i]);
                if i + 1 < m.len() - 1 {
                    assert(m[i + 1] == r[i + 1]);
                }
            }
        }
    }
}

/// Merging is the identity on a sequence without adjacent fillers; merging is
/// therefore idempotent.
pub proof fn lemma_merged_id<T: MergablePart>(s: Seq<T::V>)
    requires
        no_adjacent_fillers::<T>(s),
    ensures
        merged_parts::<T>(s) == s,
    decreases s.len(),
{
    if s.len() > 0 {
        assert(forall|i: int|
            0 <= i < s.len() - 2 ==> !(T::as_filler(#[trigger] s.drop_last()[i]) is Some
                && T::as_filler(s.drop_last()[i + 1]) is Some));
        lemma_merged_id::<T>(s.drop_last());
        let r = merged_parts::<T>(s.drop_last());
        if r.len() > 0 && T::as_filler(r.last()) is Some && T::as_filler(s.last()) is Some {
            assert(s.drop_last()[s.len() - 2] == s[s.len() - 2]);
            assert(false);
        }
        assert(merged_parts::<T>(s) =~= s);
    } else {
        assert(merged_parts::<T>(s) =~= s);
    }
}

/// Merging twice is the same as merging once.
pub proof fn lemma_merged_idempotent<T: MergablePart>(s: Seq<T::V>)
    ensures
        merged_parts::<T>(merged_parts::<T>(s)) == merged_parts::<T>(s),
{
    lemma_merged_no_adjacent::<T>(s);
    lemma_merged_id::<T>(merged_parts::<T>(s));
}

// ////////////////////////////////////////////////////////////////////////////////////////////////
// single-character search and splitting

/// The index of the first occurrence of `c`, or the length if there is none.
pub open spec fn find_char(s: Seq<char>, c: char) -> nat
    decreases s.len(),
{
    if s.len() == 0 {
        0
    } else if s[0] == c {
        0
    } else {
        1 + find_char(s.drop_first(), c)
    }
}

pub proof fn lemma_find_char(s: Seq<char>, c: char)
    ensures
        0 <= find_char(s, c) <= s.len(),
        forall|j: int| 0 <= j < find_char(s, c) ==> #[trigger] s[j] != c,
        find_char(s, c) < s.len() ==> s[find_char(s, c) as int] == c,
    decreases s.len(),
{
    if s.len() > 0 && s[0] != c {
        lemma_find_char(s.drop_first(), c);
        assert forall|j: int| 0 <= j < find_char(s, c) implies #[trigger] s[j] != c by {
            if j > 0 {
                assert(s.drop_first()[j - 1] == s[j]);
            }
        }
    }
}

/// The first occurrence of `c` in a sequence that is known to carry one at
/// `i` and none before.
pub proof fn lemma_find_char_at(s: Seq<char>, c: char, i: int)
    requires
        0 <= i < s.len(),
        forall|j: int| 0 <= j < i ==> s[j] != c,
        s[i] == c,
    ensures
        find_char(s, c) == i,
    decreases s.len(),
{
    if i > 0 {
        assert(forall|j: int| 0 <= j < i - 1 ==> s.drop_first()[j] == s[j + 1]);
        assert(s.drop_first()[i - 1] == s[i]);
        lemma_find_char_at(s.drop_first(), c, i - 1);
    }
}

/// A sequence without `c` finds it only at its end.
pub proof fn lemma_find_char_absent(s: Seq<char>, c: char)
    requires
        forall|j: int| 0 <= j < s.len() ==> s[j] != c,
    ensures
        find_char(s, c) == s.len(),
{
    lemma_find_char(s, c);
    if find_char(s, c) < s.len() {
        assert(s[find_char(s, c) as int] == c);
        assert(false);
    }
}

/// The exec scan for the first occurrence of `c` in `[from, to)`; returns `to`
/// if there is none.
pub fn find_char_from(s: &Vec<char>, from: usize, to: usize, c: char) -> (e: usize)
    requires
        from <= to <= s@.len(),
    ensures
        from <= e <= to,
        e - from == find_char(s@.subrange(from as int, to as int), c),
{
    let ghost sub = s@.subrange(from as int, to as int);
    let mut i: usize = from;
    proof {
        assert(sub.skip(0) =~= sub);
    }
    while i < to && s[i] != c
        invariant
            from <= i <= to <= s@.len(),
            sub == s@.subrange(from as int, to as int),
            find_char(sub, c) == (i - from) + find_char(sub.skip(i - from), c),
        decreases to - i,
    {
        proof {
            assert(sub.skip(i - from)[0] == s@[i as int]);
            assert(sub.skip(i - from).drop_first() =~= sub.skip(i - from + 1));
        }
        i += 1;
    }
    proof {
        if i < to {
            assert(sub.skip(i - from)[0] == s@[i as int]);
        } else {
            assert(sub.skip(i - from) =~= Seq::<char>::empty());
        }
    }
    i
}

/// Splitting a text at every occurrence of `c` (the separators are dropped;
/// `n` separators give `n + 1` pieces).
pub open spec fn spec_split_char(s: Seq<char>, c: char) -> Seq<Seq<char>>
    decreases s.len(),
{
    let i = find_char(s, c) as int;
    if i >= s.len() {
        seq![s]
    } else {
        seq![s.take(i)] + spec_split_char(s.skip(i + 1), c)
    }
}

/// Splitting gives at least one piece, and no piece contains the separator.
pub proof fn lemma_split_char_shape(s: Seq<char>, c: char)
    ensures
        spec_split_char(s, c).len() >= 1,
        forall|k: int, j: int|
            0 <= k < spec_split_char(s, c).len() && 0 <= j < spec_split_char(s, c)[k].len()
                ==> #[trigger] spec_split_char(s, c)[k][j] != c,
    decreases s.len(),
{
    let i = find_char(s, c) as int;
    lemma_find_char(s, c);
    if i >= s.len() {
        assert(spec_split_char(s, c)[0] =~= s);
    } else {
        lemma_split_char_shape(s.skip(i + 1), c);
        assert(forall|k: int|
            1 <= k < spec_split_char(s, c).len() ==> #[trigger] spec_split_char(s, c)[k]
                == spec_split_char(s.skip(i + 1), c)[k - 1]);
        assert(forall|j: int| 0 <= j < i ==> #[trigger] s.take(i)[j] == s[j]);
    }
}

/// The views of a vector of character vectors.
pub open spec fn chunk_views(v: Seq<Vec<char>>) -> Seq<Seq<char>> {
    v.map(|i: int, x: Vec<char>| x@)
}

/// Splits `s[from..to]` at every occurrence of `c`.
pub fn split_char(s: &Vec<char>, from: usize, to: usize, c: char) -> (r: Vec<Vec<char>>)
    requires
        from <= to <= s@.len(),
    ensures
        chunk_views(r@) == spec_split_char(s@.subrange(from as int, to as int), c),
{
    let ghost whole = s@.subrange(from as int, to as int);
    let mut r: Vec<Vec<char>> = Vec::new();
    let mut p: usize = from;
    proof {
        assert(chunk_views(r@) =~= Seq::<Seq<char>>::empty());
        assert(whole.skip(0) =~= whole);
    }
    loop
        invariant
            from <= p <= to <= s@.len(),
            whole == s@.subrange(from as int, to as int),
            spec_split_char(whole, c) =~= chunk_views(r@) + spec_split_char(
                whole.skip(p - from), c),
        decreases to - p + 1,
    {
        let ghost rest = whole.skip(p - from);
        let e = find_char_from(s, p, to, c);
        proof {
            lemma_find_char(rest, c);
            assert(rest =~= s@.subrange(p as int, to as int));
        }
        let piece = subvec(s, p, e);
        proof {
            assert(piece@ =~= rest.take(e - p));
        }
        let ghost prev = r@;
        r.push(piece);
        proof {
            assert(chunk_views(r@) =~= chunk_views(prev) + seq![piece@]);
        }
        if e == to {
            proof {
                assert(piece@ =~= rest);
                assert(spec_split_char(rest, c) =~= seq![piece@]);
                assert(spec_split_char(whole, c) =~= chunk_views(r@));
            }
            return r;
        }
        proof {
            assert(rest.skip(e - p + 1) =~= whole.skip(e + 1 - from));
            assert(spec_split_char(rest, c) =~= seq![piece@] + spec_split_char(
                whole.skip(e + 1 - from), c));
        }
        p = e + 1;
    }
}

/// Appends a copy of the characters of `src` to `dst`.
pub fn extend_chars(dst: &mut Vec<char>, src: &Vec<char>)
    ensures
        final(dst)@ == old(dst)@ + src@,
{
    let mut i: usize = 0;
    while i < src.len()
        invariant
            i <= src@.len(),
            dst@ == old(dst)@ + src@.take(i as int),
        decreases src@.len() - i,
    {
        dst.push(src[i]);
        i += 1;
        assert(dst@ =~= old(dst)@ + src@.take(i as int));
    }
    assert(dst@ =~= old(dst)@ + src@);
}

/// An exact copy of a character vector.
pub fn dup_chars(src: &Vec<char>) -> (r: Vec<char>)
    ensures
        r@ == src@,
{
    let n = src.len();
    let r = subvec(src, 0, n);
    proof {
        assert(src@.subrange(0, src@.len() as int) =~= src@);
    }
    r
}

/// The UTF-8 bytes of a string, as a fresh vector.
pub fn string_to_bytes(s: &String) -> (r: Vec<u8>)
    ensures
        r@ == vstd::utf8::encode_utf8(s@),
{
    vstd::slice::slice_to_vec(s.as_str().as_bytes())
}

// ////////////////////////////////////////////////////////////////////////////////////////////////
// literal matching

/// Does `s[from..]` start with the string `lit`?
pub fn match_lit(s: &Vec<char>, from: usize, lit: &str) -> (b: bool)
    requires
        from <= s@.len(),
    ensures
        b == (from + lit@.len() <= s@.len() && s@.subrange(
            from as int,
            from + lit@.len(),
        ) == lit@),
{
    let n = lit.unicode_len();
    let slen = s.len();
    if n > slen - from {
        return false;
    }
    let mut i: usize = 0;
    while i < n
        invariant
            0 <= i <= n,
            n == lit@.len(),
            from + n <= slen,
            slen == s@.len(),
            forall|j: int| 0 <= j < i ==> s@[from + j] == lit@[j],
        decreases n - i,
    {
        if s[from + i] != lit.get_char(i) {
            proof {
                assert(s@.subrange(from as int, from + lit@.len())[i as int] == s@[from + i]);
            }
            return false;
        }
        i += 1;
    }
    proof {
        assert(s@.subrange(from as int, from + lit@.len()) =~= lit@);
    }
    true
}

} // verus!
