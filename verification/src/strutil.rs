use vstd::prelude::*;

verus! {

/// Relies on String::push: appends exactly the given character at the end.
#[verifier::external_body]
pub fn push_char(s: &mut String, c: char)
    ensures
        final(s)@ == old(s)@.push(c),
{
    s.push(c)
}

/// The character for one decimal digit value.
pub open spec fn digit_char(d: int) -> char {
    if d == 0 { '0' } else if d == 1 { '1' } else if d == 2 { '2' } else if d == 3 { '3' }
    else if d == 4 { '4' } else if d == 5 { '5' } else if d == 6 { '6' } else if d == 7 { '7' }
    else if d == 8 { '8' } else if d == 9 { '9' } else { '?' }
}

/// Decimal digits of a non-negative number, most significant first.
pub open spec fn dec_chars(n: int) -> Seq<char>
    decreases n,
{
    if n < 10 {
        seq![digit_char(n)]
    } else {
        dec_chars(n / 10).push(digit_char(n % 10))
    }
}

/// The decimal rendering of an integer: a minus sign for negative numbers,
/// then the digits without leading zeroes.
pub open spec fn int_chars(n: int) -> Seq<char> {
    if n < 0 {
        seq!['-'] + dec_chars(-n)
    } else {
        dec_chars(n)
    }
}

fn digit_to_char(d: u64) -> (c: char)
    requires
        d < 10,
    ensures
        c == digit_char(d as int),
{
    match d {
        0 => '0',
        1 => '1',
        2 => '2',
        3 => '3',
        4 => '4',
        5 => '5',
        6 => '6',
        7 => '7',
        8 => '8',
        _ => '9',
    }
}

/// Append the decimal digits of `m` to `s`, most significant first.
pub fn push_dec(s: &mut String, m: u64)
    ensures
        final(s)@ == old(s)@ + dec_chars(m as int),
    decreases m,
{
    if m < 10 {
        push_char(s, digit_to_char(m));
        proof {
            assert(s@ =~= old(s)@ + dec_chars(m as int));
        }
    } else {
        push_dec(s, m / 10);
        push_char(s, digit_to_char(m % 10));
        proof {
            assert(s@ =~= old(s)@ + dec_chars(m as int));
        }
    }
}

/// Render an integer in decimal, as the host language's formatter would.
pub fn int_to_string(x: i32) -> (s: String)
    ensures
        s@ == int_chars(x as int),
{
    let neg = x < 0;
    let m: u64 = if neg {
        (-(x as i64)) as u64
    } else {
        x as u64
    };
    let mut s = String::new();
    if neg {
        push_char(&mut s, '-');
    }
    push_dec(&mut s, m);
    proof {
        assert(s@ =~= int_chars(x as int));
    }
    s
}

/// Whether `c` is an ASCII decimal digit.
pub open spec fn is_digit(c: char) -> bool {
    '0' <= c && c <= '9'
}

/// The value of an ASCII decimal digit.
pub open spec fn digit_val(c: char) -> int {
    c as int - '0' as int
}

/// The value of a digit string, most significant first.
pub open spec fn digits_val(ds: Seq<char>) -> int
    decreases ds.len(),
{
    if ds.len() == 0 {
        0
    } else {
        digits_val(ds.drop_last()) * 10 + digit_val(ds.last())
    }
}

/// Whether every character of `ds` is a decimal digit.
pub open spec fn all_digits(ds: Seq<char>) -> bool {
    forall|i: int| 0 <= i < ds.len() ==> is_digit(#[trigger] ds[i])
}

/// What the host language's integer parser accepts: an optional sign
/// followed by one or more decimal digits, with the value in range for a
/// 32-bit signed integer. Anything else parses to nothing.
pub open spec fn parse_int_spec(s: Seq<char>) -> Option<i32> {
    let signed = s.len() > 0 && (s[0] == '+' || s[0] == '-');
    let ds = if signed { s.skip(1) } else { s };
    if ds.len() == 0 || !all_digits(ds) {
        None
    } else {
        let v = if s.len() > 0 && s[0] == '-' { -digits_val(ds) } else { digits_val(ds) };
        if i32::MIN <= v <= i32::MAX {
            Some(v as i32)
        } else {
            None
        }
    }
}

/// Parse a decimal integer exactly as the host language's parser for
/// 32-bit signed integers does.
pub fn parse_int(s: &str) -> (r: Option<i32>)
    ensures
        r == parse_int_spec(s@),
{
    let n = s.unicode_len();
    if n == 0 {
        return None;
    }
    let first = s.get_char(0);
    let signed = first == '+' || first == '-';
    let neg = first == '-';
    let start: usize = if signed { 1 } else { 0 };
    let ghost ds: Seq<char> = if signed { s@.skip(1) } else { s@ };
    if n == start {
        return None;
    }
    // accumulate the magnitude in a 64-bit value; bail out as soon as it
    // can no longer be in range for i32
    let mut acc: i64 = 0;
    let mut k: usize = start;
    while k < n
        invariant
            n == s@.len(),
            n >= 1,
            start <= k <= n,
            signed == (s@[0] == '+' || s@[0] == '-'),
            neg == (s@[0] == '-'),
            start == (if signed { 1usize } else { 0usize }),
            ds == (if signed { s@.skip(1) } else { s@ }),
            n - start == ds.len(),
            neg ==> acc <= 0,
            !neg ==> acc >= 0,
            all_digits(ds.subrange(0, (k - start) as int)),
            acc == (if neg { -digits_val(ds.subrange(0, (k - start) as int)) }
                else { digits_val(ds.subrange(0, (k - start) as int)) }),
            i32::MIN <= acc <= i32::MAX,
        decreases n - k,
    {
        let c = s.get_char(k);
        if !(c >= '0' && c <= '9') {
            proof {
                assert(ds[(k - start) as int] == c);
                assert(!is_digit(ds[(k - start) as int]));
            }
            return None;
        }
        let d: i64 = (c as u32 as i64) - 48;
        let next: i64 = if neg { acc * 10 - d } else { acc * 10 + d };
        proof {
            assert(ds.subrange(0, (k + 1 - start) as int).drop_last()
                =~= ds.subrange(0, (k - start) as int));
            assert(ds.subrange(0, (k + 1 - start) as int).last() == c);
        }
        if neg {
            if next < i32::MIN as i64 {
                proof {
                    if all_digits(ds) {
                        lemma_digits_val_grows(ds, (k + 1 - start) as int);
                    }
                }
                return None;
            }
        } else {
            if next > i32::MAX as i64 {
                proof {
                    if all_digits(ds) {
                        lemma_digits_val_grows(ds, (k + 1 - start) as int);
                    }
                }
                return None;
            }
        }
        acc = next;
        k += 1;
    }
    proof {
        assert(ds.subrange(0, ds.len() as int) =~= ds);
    }
    Some(acc as i32)
}

/// Once a prefix of the digit string already puts the value out of range,
/// the whole digit string is out of range too.
proof fn lemma_digits_val_grows(ds: Seq<char>, p: int)
    requires
        0 < p <= ds.len(),
        all_digits(ds),
    ensures
        digits_val(ds) >= digits_val(ds.subrange(0, p)),
        digits_val(ds) >= 0,
    decreases ds.len() - p,
{
    lemma_digits_val_nonneg(ds.subrange(0, p));
    lemma_digits_val_nonneg(ds);
    if p == ds.len() {
        assert(ds.subrange(0, p) =~= ds);
    } else {
        lemma_digits_val_grows(ds, p + 1);
        let q = ds.subrange(0, p + 1);
        assert(q.drop_last() =~= ds.subrange(0, p));
        assert(is_digit(ds[p]));
        lemma_digits_val_nonneg(ds.subrange(0, p));
        assert(digits_val(q) == digits_val(ds.subrange(0, p)) * 10 + digit_val(ds[p]));
        assert(digits_val(ds.subrange(0, p)) * 10 >= digits_val(ds.subrange(0, p)))
            by (nonlinear_arith)
            requires digits_val(ds.subrange(0, p)) >= 0;
    }
}

/// A digit string's value is non-negative.
proof fn lemma_digits_val_nonneg(ds: Seq<char>)
    requires
        all_digits(ds),
    ensures
        digits_val(ds) >= 0,
    decreases ds.len(),
{
    if ds.len() > 0 {
        assert(all_digits(ds.drop_last())) by {
            assert(forall|i: int| 0 <= i < ds.len() - 1 ==> ds.drop_last()[i] == ds[i]);
        }
        lemma_digits_val_nonneg(ds.drop_last());
        assert(is_digit(ds.last()));
        assert(digits_val(ds.drop_last()) * 10 >= 0) by (nonlinear_arith)
            requires digits_val(ds.drop_last()) >= 0;
    }
}

/// The character for one hexadecimal digit value, lower case.
pub open spec fn hex_digit_char(d: int) -> char {
    if d < 10 { digit_char(d) }
    else if d == 10 { 'a' } else if d == 11 { 'b' } else if d == 12 { 'c' }
    else if d == 13 { 'd' } else if d == 14 { 'e' } else if d == 15 { 'f' } else { '?' }
}

/// Hexadecimal digits of a non-negative number, most significant first,
/// without leading zeroes.
pub open spec fn hex_chars(n: int) -> Seq<char>
    decreases n,
{
    if n < 16 {
        seq![hex_digit_char(n)]
    } else {
        hex_chars(n / 16).push(hex_digit_char(n % 16))
    }
}

fn hex_digit_to_char(d: u8) -> (c: char)
    requires
        d < 16,
    ensures
        c == hex_digit_char(d as int),
{
    match d {
        0 => '0',
        1 => '1',
        2 => '2',
        3 => '3',
        4 => '4',
        5 => '5',
        6 => '6',
        7 => '7',
        8 => '8',
        9 => '9',
        10 => 'a',
        11 => 'b',
        12 => 'c',
        13 => 'd',
        14 => 'e',
        _ => 'f',
    }
}

/// Append the hexadecimal digits of `m` to `s`, most significant first.
pub fn push_hex(s: &mut String, m: u8)
    ensures
        final(s)@ == old(s)@ + hex_chars(m as int),
    decreases m,
{
    if m < 16 {
        push_char(s, hex_digit_to_char(m));
        proof {
            assert(s@ =~= old(s)@ + hex_chars(m as int));
        }
    } else {
        push_hex(s, m / 16);
        push_char(s, hex_digit_to_char(m % 16));
        proof {
            assert(s@ =~= old(s)@ + hex_chars(m as int));
        }
    }
}

proof fn lemma_dec_chars_digits(n: int)
    requires
        n >= 0,
    ensures
        all_digits(dec_chars(n)),
        dec_chars(n).len() >= 1,
    decreases n,
{
    if n < 10 {
        assert(is_digit(digit_char(n)));
        assert(forall|i: int| 0 <= i < dec_chars(n).len()
            ==> #[trigger] dec_chars(n)[i] == digit_char(n));
    } else {
        lemma_dec_chars_digits(n / 10);
        assert(is_digit(digit_char(n % 10)));
        assert forall|i: int| 0 <= i < dec_chars(n).len()
            implies is_digit(#[trigger] dec_chars(n)[i]) by {
            if i < dec_chars(n / 10).len() {
                assert(dec_chars(n)[i] == dec_chars(n / 10)[i]);
            }
        }
    }
}

proof fn lemma_dec_chars_val(n: int)
    requires
        0 <= n,
    ensures
        digits_val(dec_chars(n)) == n,
    decreases n,
{
    if n < 10 {
        assert(digit_val(digit_char(n)) == n);
        assert(dec_chars(n) == seq![digit_char(n)]);
        assert(seq![digit_char(n)].drop_last() =~= Seq::<char>::empty());
        assert(seq![digit_char(n)].last() == digit_char(n));
        assert(digits_val(Seq::<char>::empty()) == 0);
    } else {
        lemma_dec_chars_val(n / 10);
        assert(dec_chars(n).drop_last() =~= dec_chars(n / 10));
        assert(digit_val(digit_char(n % 10)) == n % 10);
        assert(n == (n / 10) * 10 + n % 10) by (nonlinear_arith)
            requires n >= 10;
    }
}

/// Casting an integer to its decimal text and parsing the text back
/// yields the integer unchanged.
pub proof fn lemma_int_text_roundtrip(n: i32)
    ensures
        parse_int_spec(int_chars(n as int)) == Some(n),
{
    if n >= 0 {
        let s = dec_chars(n as int);
        lemma_dec_chars_digits(n as int);
        lemma_dec_chars_val(n as int);
        assert(s[0] != '+' && s[0] != '-') by {
            assert(is_digit(s[0]));
        }
        assert(parse_int_spec(int_chars(n as int)) == Some(n));
    } else {
        let m = -(n as int);
        let s = seq!['-'] + dec_chars(m);
        lemma_dec_chars_digits(m);
        lemma_dec_chars_val(m);
        assert(s[0] == '-');
        assert(s.skip(1) =~= dec_chars(m));
        assert(parse_int_spec(int_chars(n as int)) == Some(n));
    }
}

} // verus!
