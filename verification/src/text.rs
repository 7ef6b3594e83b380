//! Small verified helpers for building and comparing text.

use vstd::prelude::*;
use vstd::string::*;
use vstd::utf8::*;

verus! {

broadcast use vstd::seq::group_seq_axioms;

/// The character of a decimal digit `d < 10`.
pub open spec fn digit_char(d: nat) -> char {
    (48 + d) as char
}

/// Decimal text of a natural number, most significant digit first.
pub open spec fn decimal_text(n: nat) -> Seq<char>
    decreases n,
{
    if n < 10 {
        seq![digit_char(n)]
    } else {
        decimal_text(n / 10) + seq![digit_char(n % 10)]
    }
}

fn digit_str(d: u64) -> (r: &'static str)
    requires
        d < 10,
    ensures
        r@ == seq![digit_char(d as nat)],
{
    proof {
        reveal_strlit("0");
        reveal_strlit("1");
        reveal_strlit("2");
        reveal_strlit("3");
        reveal_strlit("4");
        reveal_strlit("5");
        reveal_strlit("6");
        reveal_strlit("7");
        reveal_strlit("8");
        reveal_strlit("9");
    }
    match d {
        0 => "0",
        1 => "1",
        2 => "2",
        3 => "3",
        4 => "4",
        5 => "5",
        6 => "6",
        7 => "7",
        8 => "8",
        _ => "9",
    }
}

/// Append the decimal text of `n` to `out`.
pub fn push_u64(out: &mut String, n: u64)
    ensures
        final(out)@ == old(out)@ + decimal_text(n as nat),
    decreases n,
{
    if n >= 10 {
        push_u64(out, n / 10);
    }
    let d = digit_str(n % 10);
    out.append(d);
}

/// Append the decimal text of `n` to `out`.
pub fn push_usize(out: &mut String, n: usize)
    ensures
        final(out)@ == old(out)@ + decimal_text(n as nat),
{
    push_u64(out, n as u64);
}

/// Decimal text of `n` as a new string.
pub fn u64_to_string(n: u64) -> (r: String)
    ensures
        r@ == decimal_text(n as nat),
{
    let mut s = String::new();
    push_u64(&mut s, n);
    s
}

/// Lower-case form of an ASCII letter, any other character unchanged.
pub open spec fn ascii_lower(c: char) -> char {
    if 'A' <= c && c <= 'Z' {
        ((c as u32) + 32) as char
    } else {
        c
    }
}

/// Two character sequences are equal up to ASCII case.
pub open spec fn eq_ignore_ascii_case_spec(a: Seq<char>, b: Seq<char>) -> bool {
    &&& a.len() == b.len()
    &&& forall|i: int| 0 <= i < a.len() ==> ascii_lower(#[trigger] a[i]) == ascii_lower(b[i])
}

/// The text with each ASCII capital made lower-case.
pub open spec fn ascii_lowered(s: Seq<char>) -> Seq<char> {
    Seq::new(s.len(), |i: int| ascii_lower(s[i]))
}

/// Equality up to ASCII case is equality of the lower-cased texts.
pub proof fn lemma_eq_ignore_case_lowered()
    ensures
        forall|a: Seq<char>, b: Seq<char>| #[trigger]
            eq_ignore_ascii_case_spec(a, b) == (ascii_lowered(a) == ascii_lowered(b)),
{
    assert forall|a: Seq<char>, b: Seq<char>| #[trigger]
        eq_ignore_ascii_case_spec(a, b) == (ascii_lowered(a) == ascii_lowered(b)) by {
        let la = ascii_lowered(a);
        let lb = ascii_lowered(b);
        if eq_ignore_ascii_case_spec(a, b) {
            assert(la =~= lb);
        }
        if la == lb {
            assert(a.len() == la.len() && b.len() == lb.len());
            assert forall|i: int| 0 <= i < a.len() implies ascii_lower(#[trigger] a[i]) == ascii_lower(b[i]) by {
                assert(la[i] == ascii_lower(a[i]));
                assert(lb[i] == ascii_lower(b[i]));
            }
            assert(eq_ignore_ascii_case_spec(a, b));
        }
    }
}

/// Compare two strings, ignoring ASCII case.
pub fn eq_ignore_ascii_case(a: &str, b: &str) -> (r: bool)
    ensures
        r == eq_ignore_ascii_case_spec(a@, b@),
{
    let n = a.unicode_len();
    let m = b.unicode_len();
    if n != m {
        return false;
    }
    let mut i: usize = 0;
    while i < n
        invariant
            n == a@.len(),
            m == b@.len(),
            n == m,
            i <= n,
            forall|j: int| 0 <= j < i ==> ascii_lower(#[trigger] a@[j]) == ascii_lower(b@[j]),
        decreases n - i,
    {
        let x = a.get_char(i);
        let y = b.get_char(i);
        let lx: u32 = if 'A' <= x && x <= 'Z' { (x as u32) + 32 } else { x as u32 };
        let ly: u32 = if 'A' <= y && y <= 'Z' { (y as u32) + 32 } else { y as u32 };
        if lx != ly {
            assert(ascii_lower(a@[i as int]) != ascii_lower(b@[i as int]));
            return false;
        }
        i += 1;
    }
    true
}

/// Exact comparison of two string slices.
pub fn str_eq(a: &str, b: &str) -> (r: bool)
    ensures
        r == (a@ == b@),
{
    let x = a.to_owned();
    let y = b.to_owned();
    x == y
}

/// A new string holding `s`.
pub fn string_of(s: &str) -> (r: String)
    ensures
        r@ == s@,
{
    s.to_owned()
}

/// A byte that continues a multi-byte UTF-8 sequence.
pub open spec fn is_utf8_continuation(b: u8) -> bool {
    0x80 <= b <= 0xbf
}

/// A position of `bytes` where a character starts (or the end).
pub open spec fn at_char_start(bytes: Seq<u8>, i: int) -> bool {
    0 <= i <= bytes.len() && (i == bytes.len() || !is_utf8_continuation(bytes[i]))
}

proof fn lemma_char_start_is_boundary(bytes: Seq<u8>, i: int)
    requires
        valid_utf8(bytes),
        at_char_start(bytes, i),
    ensures
        is_char_boundary(bytes, i),
{
    if i == bytes.len() {
        is_char_boundary_start_end_of_seq(bytes);
    } else {
        is_char_boundary_iff_not_is_continuation_byte(bytes, i);
    }
}

/// A text's encoding starts at a character start.
pub proof fn lemma_char_start_zero(chars: Seq<char>)
    ensures
        at_char_start(encode_utf8(chars), 0),
{
    let bytes = encode_utf8(chars);
    encode_utf8_valid_utf8(chars);
    is_char_boundary_start_end_of_seq(bytes);
    if bytes.len() > 0 {
        is_char_boundary_iff_not_is_continuation_byte(bytes, 0);
    }
}

/// Whether a character of `s` starts at byte offset `i` (or `i` is its length).
pub fn char_start(s: &str, i: usize) -> (r: bool)
    ensures
        r == at_char_start(s.spec_bytes(), i as int),
{
    let ghost bytes = s.spec_bytes();
    proof {
        encode_utf8_valid_utf8(s@);
    }
    if i > s.as_bytes().len() {
        return false;
    }
    let b = s.is_char_boundary(i);
    proof {
        if i < bytes.len() {
            is_char_boundary_iff_not_is_continuation_byte(bytes, i as int);
        } else {
            is_char_boundary_start_end_of_seq(bytes);
        }
    }
    b
}

/// The text of `s` between byte offsets `start` and `end`, both at character starts.
pub fn substring(s: &str, start: usize, end: usize) -> (r: String)
    requires
        start <= end,
        at_char_start(s.spec_bytes(), start as int),
        at_char_start(s.spec_bytes(), end as int),
    ensures
        encode_utf8(r@) == s.spec_bytes().subrange(start as int, end as int),
{
    let ghost bytes = s.spec_bytes();
    proof {
        encode_utf8_valid_utf8(s@);
        lemma_char_start_is_boundary(bytes, end as int);
    }
    let (left, _rest) = s.split_at(end);
    proof {
        valid_utf8_split(bytes, end as int);
        assert(left.spec_bytes() =~= bytes.subrange(0, end as int));
        lemma_char_start_is_boundary(left.spec_bytes(), start as int);
    }
    let (_pre, mid) = left.split_at(start);
    proof {
        assert(mid.spec_bytes() =~= bytes.subrange(start as int, end as int));
    }
    mid.to_owned()
}

} // verus!

verus! {

/// Append the decimal digit `d` (the value of an ASCII digit byte minus 48).
fn push_digit(out: &mut String, d: u8)
    requires
        d < 10,
    ensures
        final(out)@ == old(out)@ + seq![digit_char(d as nat)],
{
    let s = digit_str(d as u64);
    out.append(s);
}

/// The mantissa of a floating literal ends at the first byte that is
/// neither a digit nor `.`.
pub open spec fn mantissa_end(b: Seq<u8>, i: int) -> int
    decreases b.len() - i,
{
    if 0 <= i < b.len() && (b[i] == 46 || (48 <= b[i] && b[i] <= 57)) {
        mantissa_end(b, i + 1)
    } else {
        i
    }
}

/// Reading the first `i` bytes of a mantissa: its digit values, how many
/// digits come before the point, and whether the point was met.
pub open spec fn mantissa_scan(b: Seq<u8>, i: int) -> (Seq<u8>, int, bool)
    decreases i,
{
    if i <= 0 {
        (seq![], 0, false)
    } else {
        let (d, p, seen) = mantissa_scan(b, i - 1);
        if b[i - 1] == 46 {
            (d, p, true)
        } else {
            (d.push((b[i - 1] - 48) as u8), if seen {
                p
            } else {
                p + 1
            }, seen)
        }
    }
}

/// The first byte at or after `i` that is not a digit.
pub open spec fn digits_end(b: Seq<u8>, i: int) -> int
    decreases b.len() - i,
{
    if 0 <= i < b.len() && 48 <= b[i] && b[i] <= 57 {
        digits_end(b, i + 1)
    } else {
        i
    }
}

/// The value of the exponent digits `b[start..i]`, which stops growing
/// once it passes 9999 (far beyond the range of a double).
pub open spec fn exponent_scan(b: Seq<u8>, start: int, i: int) -> int
    decreases i - start,
{
    if i <= start {
        0
    } else {
        let e = exponent_scan(b, start, i - 1);
        if e <= 9999 {
            e * 10 + (b[i - 1] - 48)
        } else {
            e
        }
    }
}

/// The exponent after a mantissa ending at `m`: none without `e`/`E`,
/// else its signed digits.
pub open spec fn exponent_of(b: Seq<u8>, m: int) -> int {
    if m < b.len() && (b[m] == 101 || b[m] == 69) {
        let j = m + 1;
        let signed = j < b.len() && (b[j] == 43 || b[j] == 45);
        let k = if signed {
            j + 1
        } else {
            j
        };
        let v = exponent_scan(b, k, digits_end(b, k));
        if signed && b[j] == 45 {
            -v
        } else {
            v
        }
    } else {
        0
    }
}

/// The first position at or after `k` of a nonzero digit (the length when
/// there is none).
pub open spec fn first_nonzero(d: Seq<u8>, k: int) -> int
    decreases d.len() - k,
{
    if 0 <= k < d.len() && d[k] == 0 {
        first_nonzero(d, k + 1)
    } else {
        k
    }
}

/// The end of the digits `d[first..last]` without their trailing zeros.
pub open spec fn nonzero_end(d: Seq<u8>, first: int, last: int) -> int
    decreases last - first,
{
    if first < last && d[last - 1] == 0 {
        nonzero_end(d, first, last - 1)
    } else {
        last
    }
}

/// The digits `d[lo..hi]` as text.
pub open spec fn digit_run(d: Seq<u8>, lo: int, hi: int) -> Seq<char> {
    Seq::new((hi - lo) as nat, |j: int| digit_char(d[lo + j] as nat))
}

/// `n` zeros.
pub open spec fn zeros_text(n: int) -> Seq<char> {
    Seq::new(n as nat, |j: int| '0')
}

/// The canonical decimal text of a floating literal's bytes: the
/// significant digits of the mantissa placed by the point and the
/// exponent; `0` when there is no nonzero digit or the value is far below
/// the range of a double, `inf` far above it.
pub open spec fn float_text(b: Seq<u8>) -> Seq<char> {
    let m = mantissa_end(b, 0);
    let (d, point, _) = mantissa_scan(b, m);
    let first = first_nonzero(d, 0);
    let last = nonzero_end(d, first, d.len() as int);
    let p = point - first + exponent_of(b, m);
    let count = last - first;
    if first == last {
        "0"@
    } else if p > 400 {
        "inf"@
    } else if p < -400 {
        "0"@
    } else if p <= 0 {
        "0."@ + zeros_text(-p) + digit_run(d, first, last)
    } else if p >= count {
        digit_run(d, first, last) + zeros_text(p - count)
    } else {
        digit_run(d, first, first + p) + "."@ + digit_run(d, first + p, last)
    }
}

proof fn lemma_scan_bounds(b: Seq<u8>, i: int)
    requires
        0 <= i <= b.len(),
    ensures
        mantissa_scan(b, i).0.len() <= i,
        0 <= mantissa_scan(b, i).1 <= mantissa_scan(b, i).0.len(),
        forall|k: int| 0 <= k < mantissa_scan(b, i).0.len() ==> 0 <= #[trigger] mantissa_scan(b, i).0[k],
    decreases i,
{
    if i > 0 {
        lemma_scan_bounds(b, i - 1);
    }
}

proof fn lemma_digit_run_push(d: Seq<u8>, lo: int, k: int)
    requires
        0 <= lo <= k < d.len(),
    ensures
        digit_run(d, lo, k + 1) == digit_run(d, lo, k).push(digit_char(d[k] as nat)),
{
    assert(digit_run(d, lo, k + 1) =~= digit_run(d, lo, k).push(digit_char(d[k] as nat)));
}

proof fn lemma_zeros_push(n: int)
    requires
        n >= 0,
    ensures
        zeros_text(n + 1) == zeros_text(n).push('0'),
{
    assert(zeros_text(n + 1) =~= zeros_text(n).push('0'));
}

/// Canonical decimal text of a floating literal `lexeme`
/// (`[0-9]+\.[0-9]*([eE][+-]?[0-9]+)?`): no exponent, no leading zeros in the
/// integer part, no trailing zeros in the fraction, and no fraction at all for
/// integral values (`3.0` is written `3`, `1.5e-3` is written `0.0015`).
pub fn float_display(lexeme: &str) -> (r: String)
    ensures
        r@ == float_text(lexeme.spec_bytes()),
{
    let b = lexeme.as_bytes();
    let n = b.len();
    let ghost bs = b@;
    // Mantissa digits with the position of the decimal point.
    let mut digits: Vec<u8> = Vec::new();
    let mut point: usize = 0;
    let mut i: usize = 0;
    let mut seen_dot = false;
    while i < n && (b[i] == 46 || (48 <= b[i] && b[i] <= 57))
        invariant
            i <= n,
            n == b@.len(),
            bs == b@,
            digits@.len() <= i,
            0 <= point <= i,
            forall|k: int| 0 <= k < digits@.len() ==> #[trigger] digits@[k] < 10,
            (digits@, point as int, seen_dot) == mantissa_scan(bs, i as int),
            mantissa_end(bs, 0) == mantissa_end(bs, i as int),
        decreases n - i,
    {
        if b[i] == 46 {
            seen_dot = true;
        } else {
            digits.push(b[i] - 48);
            if !seen_dot {
                point = point + 1;
            }
        }
        i += 1;
    }
    let ghost m = i as int;
    assert(mantissa_end(bs, 0) == m);
    proof {
        lemma_scan_bounds(bs, m);
    }
    // Exponent, saturated far beyond the range of a double.
    let mut exp: i64 = 0;
    if i < n && (b[i] == 101 || b[i] == 69) {
        i += 1;
        let mut negative = false;
        if i < n && (b[i] == 43 || b[i] == 45) {
            negative = b[i] == 45;
            i += 1;
        }
        let ghost k0 = i as int;
        while i < n && 48 <= b[i] && b[i] <= 57
            invariant
                k0 <= i <= n,
                n == b@.len(),
                bs == b@,
                0 <= exp <= 100000,
                exp == exponent_scan(bs, k0, i as int),
                digits_end(bs, k0) == digits_end(bs, i as int),
            decreases n - i,
        {
            let d = (b[i] - 48) as i64;
            if exp <= 9999 {
                exp = exp * 10 + d;
            }
            i += 1;
        }
        if negative {
            exp = -exp;
        }
        assert(exp == exponent_of(bs, m));
    } else {
        assert(exponent_of(bs, m) == 0);
    }
    let ghost dv = digits@;
    // Strip leading and trailing zeros.
    let len = digits.len();
    let mut first: usize = 0;
    while first < len && digits[first] == 0
        invariant
            first <= len,
            len == digits@.len(),
            first_nonzero(dv, 0) == first_nonzero(dv, first as int),
            dv == digits@,
        decreases len - first,
    {
        first += 1;
    }
    let mut last = len;
    while last > first && digits[last - 1] == 0
        invariant
            first <= last <= len,
            len == digits@.len(),
            nonzero_end(dv, first as int, len as int) == nonzero_end(dv, first as int, last as int),
            dv == digits@,
        decreases last,
    {
        last -= 1;
    }
    let ghost text = float_text(bs);
    let mut out = String::new();
    if first == last {
        out.append("0");
        return out;
    }
    // Position of the decimal point relative to the first significant digit.
    let p: i128 = point as i128 - first as i128 + exp as i128;
    let count: i128 = (last - first) as i128;
    if p > 400 {
        out.append("inf");
        return out;
    }
    if p < -400 {
        out.append("0");
        return out;
    }
    if p <= 0 {
        out.append("0.");
        let mut z: i128 = 0;
        assert(out@ =~= "0."@ + zeros_text(0));
        while z < -p
            invariant
                -400 <= p <= 0,
                0 <= z <= -p,
                out@ == "0."@ + zeros_text(z as int),
            decreases -p - z,
        {
            let ghost o0 = out@;
            out.append("0");
            proof {
                reveal_strlit("0");
                lemma_zeros_push(z as int);
                assert(out@ =~= o0.push('0'));
                assert(out@ =~= "0."@ + zeros_text(z + 1));
            }
            z += 1;
        }
        let ghost pre = out@;
        let mut k = first;
        assert(out@ =~= pre + digit_run(dv, first as int, k as int));
        while k < last
            invariant
                first <= k <= last <= len,
                len == digits@.len(),
                dv == digits@,
                forall|j: int| 0 <= j < digits@.len() ==> #[trigger] digits@[j] < 10,
                out@ == pre + digit_run(dv, first as int, k as int),
            decreases last - k,
        {
            push_digit(&mut out, digits[k]);
            proof {
                lemma_digit_run_push(dv, first as int, k as int);
            }
            k += 1;
        }
    } else if p >= count {
        let mut k = first;
        assert(out@ =~= digit_run(dv, first as int, k as int));
        while k < last
            invariant
                first <= k <= last <= len,
                len == digits@.len(),
                dv == digits@,
                forall|j: int| 0 <= j < digits@.len() ==> #[trigger] digits@[j] < 10,
                out@ == digit_run(dv, first as int, k as int),
            decreases last - k,
        {
            push_digit(&mut out, digits[k]);
            proof {
                lemma_digit_run_push(dv, first as int, k as int);
            }
            k += 1;
        }
        let ghost pre = out@;
        let mut z: i128 = 0;
        assert(out@ =~= pre + zeros_text(0));
        while z < p - count
            invariant
                0 <= z <= p - count,
                p <= 400,
                count >= 0,
                out@ == pre + zeros_text(z as int),
            decreases p - count - z,
        {
            let ghost o0 = out@;
            out.append("0");
            proof {
                reveal_strlit("0");
                lemma_zeros_push(z as int);
                assert(out@ =~= o0.push('0'));
                assert(out@ =~= pre + zeros_text(z + 1));
            }
            z += 1;
        }
    } else {
        let split = first + (p as usize);
        let mut k = first;
        assert(out@ =~= digit_run(dv, first as int, k as int));
        while k < last
            invariant
                first <= k <= last <= len,
                first < split < last,
                len == digits@.len(),
                dv == digits@,
                forall|j: int| 0 <= j < digits@.len() ==> #[trigger] digits@[j] < 10,
                k <= split ==> out@ == digit_run(dv, first as int, k as int),
                k > split ==> out@ == digit_run(dv, first as int, split as int) + "."@ + digit_run(
                    dv,
                    split as int,
                    k as int,
                ),
            decreases last - k,
        {
            if k == split {
                out.append(".");
                assert(out@ =~= digit_run(dv, first as int, split as int) + "."@ + digit_run(
                    dv,
                    split as int,
                    k as int,
                ));
            }
            let ghost o0 = out@;
            push_digit(&mut out, digits[k]);
            proof {
                if k < split {
                    lemma_digit_run_push(dv, first as int, k as int);
                } else {
                    lemma_digit_run_push(dv, split as int, k as int);
                    assert(out@ =~= digit_run(dv, first as int, split as int) + "."@ + digit_run(
                        dv,
                        split as int,
                        k + 1,
                    ));
                }
            }
            k += 1;
        }
    }
    assert(out@ =~= text);
    out
}

} // verus!
