use vstd::prelude::*;
use vstd::string::StrSliceExecFns;
use vstd::string::StringExecFns;

verus! {

// ---------------------------------------------------------------------------
// Decimal numerals, at the character level.
// ---------------------------------------------------------------------------

pub open spec fn is_dec_digit(c: char) -> bool {
    48 <= (c as u32) <= 57
}

pub open spec fn dec_digit_val(c: char) -> int {
    (c as u32) - 48
}

pub open spec fn dec_digit_char(d: int) -> char {
    if d == 0 {
        '0'
    } else if d == 1 {
        '1'
    } else if d == 2 {
        '2'
    } else if d == 3 {
        '3'
    } else if d == 4 {
        '4'
    } else if d == 5 {
        '5'
    } else if d == 6 {
        '6'
    } else if d == 7 {
        '7'
    } else if d == 8 {
        '8'
    } else {
        '9'
    }
}

/// The canonical decimal numeral of a natural number: no sign, no leading
/// zeros (except for the single digit of zero itself).
pub open spec fn dec_nat_str(n: nat) -> Seq<char>
    decreases n,
{
    if n < 10 {
        seq![dec_digit_char(n as int)]
    } else {
        dec_nat_str(n / 10).push(dec_digit_char((n % 10) as int))
    }
}

/// The canonical decimal numeral of an integer: a minus sign for negative
/// values, then the numeral of the magnitude.
pub open spec fn dec_str_of_int(i: int) -> Seq<char> {
    if i < 0 {
        seq!['-'] + dec_nat_str((-i) as nat)
    } else {
        dec_nat_str(i as nat)
    }
}

pub open spec fn all_dec_digits(s: Seq<char>) -> bool {
    forall|i: int| 0 <= i < s.len() ==> is_dec_digit(#[trigger] s[i])
}

/// The value of a sequence of decimal digits, most significant first.
pub open spec fn dec_nat_of(s: Seq<char>) -> int
    decreases s.len(),
{
    if s.len() == 0 {
        0
    } else {
        dec_nat_of(s.drop_last()) * 10 + dec_digit_val(s.last())
    }
}

/// The integer a character sequence denotes in decimal: an optional leading
/// minus sign followed by one or more decimal digits. Anything else denotes
/// no integer.
pub open spec fn int_of_dec_str(s: Seq<char>) -> Option<int> {
    if s.len() >= 2 && s[0] == '-' {
        if all_dec_digits(s.subrange(1, s.len() as int)) {
            Some(-dec_nat_of(s.subrange(1, s.len() as int)))
        } else {
            None
        }
    } else if s.len() >= 1 && all_dec_digits(s) {
        Some(dec_nat_of(s))
    } else {
        None
    }
}

pub proof fn lemma_dec_nat_str_wf(n: nat)
    ensures
        dec_nat_str(n).len() >= 1,
        all_dec_digits(dec_nat_str(n)),
        n >= 1 ==> dec_nat_str(n)[0] != '0',
        n >= 10 ==> dec_nat_str(n).len() >= 2,
    decreases n,
{
    if n < 10 {
    } else {
        lemma_dec_nat_str_wf(n / 10);
        let p = dec_nat_str(n / 10);
        let s = dec_nat_str(n);
        assert(s == p.push(dec_digit_char((n % 10) as int)));
        assert forall|i: int| 0 <= i < s.len() implies is_dec_digit(#[trigger] s[i]) by {
            if i < p.len() {
                assert(s[i] == p[i]);
            }
        }
        assert(s[0] == p[0]);
    }
}

pub proof fn lemma_dec_nat_of_nonneg(s: Seq<char>)
    requires
        all_dec_digits(s),
    ensures
        dec_nat_of(s) >= 0,
    decreases s.len(),
{
    if s.len() > 0 {
        assert(all_dec_digits(s.drop_last())) by {
            assert(forall|i: int|
                0 <= i < s.len() - 1 ==> s.drop_last()[i] == #[trigger] s[i]);
        }
        lemma_dec_nat_of_nonneg(s.drop_last());
        assert(is_dec_digit(s.last()));
    }
}

/// Reading back the canonical numeral of `n` yields `n`.
pub proof fn lemma_dec_nat_roundtrip(n: nat)
    ensures
        dec_nat_of(dec_nat_str(n)) == n,
    decreases n,
{
    if n < 10 {
        let s = dec_nat_str(n);
        assert(s.drop_last() =~= Seq::<char>::empty());
        assert(dec_nat_of(Seq::<char>::empty()) == 0);
        assert(s.last() == dec_digit_char(n as int));
        assert(dec_digit_val(dec_digit_char(n as int)) == n);
        assert(dec_nat_of(s) == 0 * 10 + dec_digit_val(s.last()));
    } else {
        lemma_dec_nat_roundtrip(n / 10);
        let p = dec_nat_str(n / 10);
        let s = dec_nat_str(n);
        assert(s.drop_last() =~= p);
        assert(dec_digit_val(dec_digit_char((n % 10) as int)) == n % 10);
        assert(dec_nat_of(s) == dec_nat_of(p) * 10 + n % 10);
    }
}

/// Reading back the canonical numeral of `i` yields `i`.
pub proof fn lemma_dec_int_roundtrip(i: int)
    ensures
        int_of_dec_str(dec_str_of_int(i)) == Some(i),
{
    if i < 0 {
        let m = dec_nat_str((-i) as nat);
        let s = dec_str_of_int(i);
        lemma_dec_nat_str_wf((-i) as nat);
        lemma_dec_nat_roundtrip((-i) as nat);
        assert(s[0] == '-');
        assert(s.len() >= 2);
        assert(s.subrange(1, s.len() as int) =~= m);
    } else {
        let s = dec_str_of_int(i);
        lemma_dec_nat_str_wf(i as nat);
        lemma_dec_nat_roundtrip(i as nat);
        assert(is_dec_digit(s[0]));
        assert(s[0] != '-');
    }
}

// ---------------------------------------------------------------------------
// Base-16 numerals, at the byte level (fields on disk are ASCII bytes).
// ---------------------------------------------------------------------------

pub open spec fn is_hex_digit_byte(b: u8) -> bool {
    (48 <= b <= 57) || (97 <= b <= 102) || (65 <= b <= 70)
}

pub open spec fn hex_digit_val(b: u8) -> int {
    if 48 <= b <= 57 {
        b - 48
    } else if 97 <= b <= 102 {
        b - 87
    } else {
        b - 55
    }
}

/// The lowercase base-16 digit byte for a value below sixteen.
pub open spec fn hex_digit_byte(d: int) -> u8 {
    if d < 10 {
        (48 + d) as u8
    } else {
        (87 + d) as u8
    }
}

/// Exactly `w` base-16 digit bytes, most significant first, left-padded with
/// zero digits.
pub open spec fn hex_fixed(n: int, w: nat) -> Seq<u8>
    decreases w,
{
    if w == 0 {
        Seq::empty()
    } else {
        hex_fixed(n / 16, (w - 1) as nat).push(hex_digit_byte(n % 16))
    }
}

pub open spec fn all_hex_digits(s: Seq<u8>) -> bool {
    forall|i: int| 0 <= i < s.len() ==> is_hex_digit_byte(#[trigger] s[i])
}

/// The value of a sequence of base-16 digit bytes, most significant first.
pub open spec fn hex_nat_of(s: Seq<u8>) -> int
    decreases s.len(),
{
    if s.len() == 0 {
        0
    } else {
        hex_nat_of(s.drop_last()) * 16 + hex_digit_val(s.last())
    }
}

/// Sixteen raised to the given power.
pub open spec fn pow16(w: nat) -> int
    decreases w,
{
    if w == 0 {
        1
    } else {
        16 * pow16((w - 1) as nat)
    }
}

pub proof fn lemma_pow16_values()
    ensures
        pow16(8) == 0x100000000,
        pow16(9) == 0x1000000000,
        pow16(15) == 0x1000000000000000,
{
    assert(pow16(0) == 1);
    assert(pow16(1) == 16);
    assert(pow16(2) == 0x100);
    assert(pow16(3) == 0x1000);
    assert(pow16(4) == 0x10000);
    assert(pow16(5) == 0x100000);
    assert(pow16(6) == 0x1000000);
    assert(pow16(7) == 0x10000000);
    assert(pow16(8) == 0x100000000);
    assert(pow16(9) == 0x1000000000);
    assert(pow16(10) == 0x10000000000);
    assert(pow16(11) == 0x100000000000);
    assert(pow16(12) == 0x1000000000000);
    assert(pow16(13) == 0x10000000000000);
    assert(pow16(14) == 0x100000000000000);
    assert(pow16(15) == 0x1000000000000000);
}

pub proof fn lemma_hex_fixed_wf(n: int, w: nat)
    ensures
        hex_fixed(n, w).len() == w,
        n >= 0 ==> all_hex_digits(hex_fixed(n, w)),
    decreases w,
{
    if w > 0 {
        lemma_hex_fixed_wf(n / 16, (w - 1) as nat);
        if n >= 0 {
            let p = hex_fixed(n / 16, (w - 1) as nat);
            let s = hex_fixed(n, w);
            assert(0 <= n % 16 < 16);
            assert(is_hex_digit_byte(hex_digit_byte(n % 16)));
            assert forall|i: int| 0 <= i < s.len() implies is_hex_digit_byte(
                #[trigger] s[i],
            ) by {
                if i < p.len() {
                    assert(s[i] == p[i]);
                }
            }
        }
    }
}

/// Reading back the fixed-width numeral of `n` yields `n`, for `n` within
/// the width.
pub proof fn lemma_hex_fixed_roundtrip(n: int, w: nat)
    requires
        0 <= n < pow16(w),
    ensures
        hex_nat_of(hex_fixed(n, w)) == n,
    decreases w,
{
    if w == 0 {
    } else {
        assert(pow16(w) == 16 * pow16((w - 1) as nat));
        assert(n / 16 < pow16((w - 1) as nat)) by {
            let p = pow16((w - 1) as nat);
            assert(n < 16 * p);
            assert(n / 16 < p) by (nonlinear_arith)
                requires
                    n >= 0 && p > 0 && n < 16 * p,
            ;
        }
        lemma_hex_fixed_roundtrip(n / 16, (w - 1) as nat);
        let p = hex_fixed(n / 16, (w - 1) as nat);
        let s = hex_fixed(n, w);
        assert(s.drop_last() =~= p);
        assert(0 <= n % 16 < 16);
        assert(hex_digit_val(hex_digit_byte(n % 16)) == n % 16);
        assert(hex_nat_of(s) == (n / 16) * 16 + n % 16);
    }
}

pub proof fn lemma_hex_nat_of_bound(s: Seq<u8>)
    requires
        all_hex_digits(s),
    ensures
        0 <= hex_nat_of(s) < pow16(s.len()),
    decreases s.len(),
{
    if s.len() > 0 {
        assert(all_hex_digits(s.drop_last())) by {
            assert(forall|i: int|
                0 <= i < s.len() - 1 ==> s.drop_last()[i] == #[trigger] s[i]);
        }
        lemma_hex_nat_of_bound(s.drop_last());
        assert(is_hex_digit_byte(s.last()));
        assert(0 <= hex_digit_val(s.last()) < 16);
        let v = hex_nat_of(s.drop_last());
        let p = pow16((s.len() - 1) as nat);
        assert(pow16(s.len()) == 16 * p);
        assert(v * 16 + 15 < 16 * p) by (nonlinear_arith)
            requires
                0 <= v < p,
        ;
    }
}

// ---------------------------------------------------------------------------
// Executable formatting.
// ---------------------------------------------------------------------------

/// The one-character string of a decimal digit.
fn dec_digit_str(d: u64) -> (r: &'static str)
    requires
        d < 10,
    ensures
        r@ == seq![dec_digit_char(d as int)],
{
    proof {
        reveal_strlit("0");
        reveal_strlit("1");
        reveal_strlit("2");
        reveal_strlit("3");
        reveal_strlit("4");
        reveal_strlit("5");
        reveal_strlit("6");
        reveal_strlit("7");
        reveal_strlit("8");
        reveal_strlit("9");
    }
    let r: &'static str = if d == 0 {
        "0"
    } else if d == 1 {
        "1"
    } else if d == 2 {
        "2"
    } else if d == 3 {
        "3"
    } else if d == 4 {
        "4"
    } else if d == 5 {
        "5"
    } else if d == 6 {
        "6"
    } else if d == 7 {
        "7"
    } else if d == 8 {
        "8"
    } else {
        "9"
    };
    proof {
        assert(r@ =~= seq![dec_digit_char(d as int)]);
    }
    r
}

/// Appends the canonical decimal numeral of `n`.
pub fn push_dec_u64(n: u64, out: &mut String)
    ensures
        final(out)@ == old(out)@ + dec_nat_str(n as nat),
    decreases n,
{
    if n < 10 {
        out.append(dec_digit_str(n));
    } else {
        push_dec_u64(n / 10, out);
        out.append(dec_digit_str(n % 10));
        proof {
            assert(out@ =~= old(out)@ + dec_nat_str(n as nat));
        }
    }
}

/// The canonical decimal string of an integer.
pub fn i64_dec_string(i: i64) -> (r: String)
    ensures
        r@ == dec_str_of_int(i as int),
{
    if i >= 0 {
        let mut s = String::new();
        push_dec_u64(i as u64, &mut s);
        proof {
            assert(s@ =~= dec_nat_str(i as nat));
        }
        s
    } else {
        proof {
            reveal_strlit("-");
        }
        let mut s = String::from_str("-");
        let mag: u64 = ((-(i + 1)) as u64) + 1;
        proof {
            assert(mag as int == -(i as int));
        }
        push_dec_u64(mag, &mut s);
        proof {
            assert("-"@ =~= seq!['-']);
            assert(s@ =~= dec_str_of_int(i as int));
        }
        s
    }
}

/// Appends exactly `w` base-16 digit bytes of `n`, most significant first.
pub fn push_hex_fixed(n: u64, w: usize, out: &mut Vec<u8>)
    ensures
        final(out)@ == old(out)@ + hex_fixed(n as int, w as nat),
    decreases w,
{
    if w == 0 {
        proof {
            assert(out@ =~= old(out)@ + hex_fixed(n as int, 0));
        }
    } else {
        push_hex_fixed(n / 16, w - 1, out);
        let d: u64 = n % 16;
        let b: u8 = if d < 10 {
            (48 + d) as u8
        } else {
            (87 + d) as u8
        };
        out.push(b);
        proof {
            assert(b == hex_digit_byte((n as int) % 16));
            assert(out@ =~= old(out)@ + hex_fixed(n as int, w as nat));
        }
    }
}

// ---------------------------------------------------------------------------
// Executable parsing.
// ---------------------------------------------------------------------------

/// Parses the digit bytes of `s` between `from` and `to` as base 16.
pub fn hex_value(s: &[u8], from: usize, to: usize) -> (r: Option<u64>)
    requires
        from <= to <= s@.len(),
        to - from <= 15,
    ensures
        r is Some <==> (from < to && all_hex_digits(s@.subrange(from as int, to as int))),
        r matches Some(v) ==> v as int == hex_nat_of(s@.subrange(from as int, to as int)),
{
    if from >= to {
        return None;
    }
    let mut acc: u64 = 0;
    let mut i: usize = from;
    proof {
        lemma_pow16_values();
        assert(s@.subrange(from as int, from as int) =~= Seq::<u8>::empty());
    }
    while i < to
        invariant
            from <= i <= to <= s@.len(),
            to - from <= 15,
            all_hex_digits(s@.subrange(from as int, i as int)),
            acc as int == hex_nat_of(s@.subrange(from as int, i as int)),
            (acc as int) < pow16((i - from) as nat),
            pow16(15) == 0x1000000000000000,
        decreases to - i,
    {
        let b = s[i];
        let d: u8 = if 48 <= b && b <= 57 {
            b - 48
        } else if 97 <= b && b <= 102 {
            b - 87
        } else if 65 <= b && b <= 70 {
            b - 55
        } else {
            proof {
                assert(s@.subrange(from as int, to as int)[i - from] == s@[i as int]);
                assert(!is_hex_digit_byte(s@[i as int]));
            }
            return None;
        };
        proof {
            assert(is_hex_digit_byte(b) && d as int == hex_digit_val(b));
            let pre = s@.subrange(from as int, i as int);
            let ext = s@.subrange(from as int, i + 1);
            assert(ext.drop_last() =~= pre);
            assert(ext.last() == b);
            assert(forall|j: int| 0 <= j < pre.len() ==> ext[j] == #[trigger] pre[j]);
            assert(hex_nat_of(ext) == (acc as int) * 16 + d);
            assert(pow16((i + 1 - from) as nat) == 16 * pow16((i - from) as nat));
            assert((acc as int) * 16 + d < pow16((i + 1 - from) as nat));
            lemma_pow16_mono((i + 1 - from) as nat, 15);
            assert((acc as int) * 16 + d < 0x1000000000000000);
        }
        acc = acc * 16 + (d as u64);
        i = i + 1;
    }
    proof {
        assert(s@.subrange(from as int, to as int) == s@.subrange(from as int, i as int));
    }
    Some(acc)
}

pub proof fn lemma_pow16_mono(a: nat, b: nat)
    requires
        a <= b,
    ensures
        pow16(a) <= pow16(b),
        pow16(a) >= 1,
    decreases b,
{
    if a == b {
        lemma_pow16_pos(a);
    } else {
        lemma_pow16_mono(a, (b - 1) as nat);
    }
}

pub proof fn lemma_pow16_pos(a: nat)
    ensures
        pow16(a) >= 1,
    decreases a,
{
    if a > 0 {
        lemma_pow16_pos((a - 1) as nat);
    }
}

/// Parses the characters of `s` from index `from` on as an unsigned decimal
/// magnitude, or reports that they are not all digits or do not fit `u64`.
fn parse_dec_mag(s: &str, from: usize) -> (r: Option<u64>)
    requires
        from <= s@.len(),
    ensures
        ({
            let digits = s@.subrange(from as int, s@.len() as int);
            match r {
                Some(v) => digits.len() > 0 && all_dec_digits(digits) && v as int
                    == dec_nat_of(digits),
                None => digits.len() == 0 || !all_dec_digits(digits) || dec_nat_of(digits)
                    > u64::MAX as int,
            }
        }),
{
    let n = s.unicode_len();
    if from >= n {
        return None;
    }
    let ghost digits = s@.subrange(from as int, s@.len() as int);
    let mut acc: u64 = 0;
    let mut i: usize = from;
    proof {
        assert(s@.subrange(from as int, from as int) =~= Seq::<char>::empty());
    }
    while i < n
        invariant
            from <= i <= n,
            n == s@.len(),
            digits == s@.subrange(from as int, n as int),
            all_dec_digits(s@.subrange(from as int, i as int)),
            acc as int == dec_nat_of(s@.subrange(from as int, i as int)),
        decreases n - i,
    {
        let c = s.get_char(i);
        let cv = c as u32;
        if cv < 48 || cv > 57 {
            proof {
                assert(digits[i - from] == s@[i as int]);
                assert(!is_dec_digit(digits[i - from]));
            }
            return None;
        }
        let d: u64 = (cv - 48) as u64;
        let ghost pre = s@.subrange(from as int, i as int);
        let ghost ext = s@.subrange(from as int, i + 1);
        proof {
            assert(ext.drop_last() =~= pre);
            assert(ext.last() == s@[i as int]);
            assert(forall|j: int| 0 <= j < pre.len() ==> ext[j] == #[trigger] pre[j]);
            assert(is_dec_digit(s@[i as int]) && d as int == dec_digit_val(s@[i as int]));
        }
        if acc > (u64::MAX - d) / 10 {
            proof {
                lemma_dec_nat_of_nonneg(ext);
                assert(dec_nat_of(ext) == acc * 10 + d);
                assert(dec_nat_of(ext) > u64::MAX as int);
                if all_dec_digits(digits) {
                    lemma_dec_suffix_ge(s@, from as int, i + 1);
                    assert(dec_nat_of(digits) >= dec_nat_of(ext));
                }
            }
            return None;
        }
        acc = acc * 10 + d;
        i = i + 1;
    }
    proof {
        assert(s@.subrange(from as int, i as int) == digits);
    }
    Some(acc)
}

/// Within one digit string, the whole denotes at least as much as any
/// prefix reaching from the same start.
proof fn lemma_dec_suffix_ge(s: Seq<char>, from: int, upto: int)
    requires
        0 <= from <= upto <= s.len(),
        all_dec_digits(s.subrange(from, s.len() as int)),
    ensures
        dec_nat_of(s.subrange(from, s.len() as int)) >= dec_nat_of(s.subrange(from, upto)),
    decreases s.len() - upto,
{
    let whole = s.subrange(from, s.len() as int);
    if upto == s.len() {
        assert(s.subrange(from, upto) =~= whole);
        lemma_dec_nat_of_nonneg(whole);
    } else {
        lemma_dec_suffix_ge(s, from, upto + 1);
        let p = s.subrange(from, upto);
        let q = s.subrange(from, upto + 1);
        assert(q.drop_last() =~= p);
        assert(q.last() == s[upto]);
        assert(forall|j: int| 0 <= j < whole.len() ==> whole[j] == #[trigger] s[from + j]);
        assert(all_dec_digits(p)) by {
            assert(forall|j: int| 0 <= j < p.len() ==> p[j] == #[trigger] s[from + j]);
        }
        assert(is_dec_digit(q.last())) by {
            assert(whole[upto - from] == s[upto]);
        }
        lemma_dec_nat_of_nonneg(p);
        assert(dec_nat_of(q) == dec_nat_of(p) * 10 + dec_digit_val(q.last()));
    }
}

/// Parses a character string as a signed decimal integer: an optional minus
/// sign, then decimal digits. `None` when the string denotes no integer or
/// the integer does not fit `i64`.
pub fn parse_i64_dec(s: &str) -> (r: Option<i64>)
    ensures
        match int_of_dec_str(s@) {
            Some(i) => {
                if i64::MIN <= i <= i64::MAX {
                    r == Some(i as i64)
                } else {
                    r is None
                }
            },
            None => r is None,
        },
{
    let n = s.unicode_len();
    if n == 0 {
        return None;
    }
    let neg = s.get_char(0) == '-';
    if neg {
        if n < 2 {
            proof {
                assert(int_of_dec_str(s@) is None);
            }
            return None;
        }
        let mag = parse_dec_mag(s, 1);
        match mag {
            None => None,
            Some(v) => {
                if v <= 0x8000000000000000u64 {
                    let r: i64 = if v == 0x8000000000000000u64 {
                        i64::MIN
                    } else {
                        -(v as i64)
                    };
                    Some(r)
                } else {
                    None
                }
            },
        }
    } else {
        let mag = parse_dec_mag(s, 0);
        proof {
            assert(s@.subrange(0, s@.len() as int) =~= s@);
        }
        match mag {
            None => None,
            Some(v) => {
                if v <= i64::MAX as u64 {
                    proof {
                        assert(s@[0] != '-') by {
                            assert(is_dec_digit(s@[0]));
                        }
                    }
                    Some(v as i64)
                } else {
                    None
                }
            },
        }
    }
}

} // verus!
