use vstd::prelude::*;
use vstd::string::StrSliceExecFns;
use vstd::utf8::{decode_utf8, encode_utf8, valid_utf8};

use crate::domain::{col_width, ColumnDefinition, ColumnType};
use crate::error::StoreError;
use crate::numerals::{
    all_hex_digits, dec_str_of_int, hex_digit_byte, hex_digit_val, hex_fixed, hex_nat_of,
    hex_value, i64_dec_string, int_of_dec_str, is_hex_digit_byte, lemma_dec_int_roundtrip,
    lemma_hex_fixed_roundtrip, lemma_hex_fixed_wf, lemma_hex_nat_of_bound, lemma_pow16_values,
    parse_i64_dec, pow16, push_hex_fixed,
};

verus! {

/// The encoded byte width of an INT field.
pub const INT_WIDTH: usize = 9;

/// The encoded byte width of a STRING field.
pub const STRING_WIDTH: usize = 16;

// ---------------------------------------------------------------------------
// What an encoded field is.
// ---------------------------------------------------------------------------

/// An integer value fits its fixed-width field when its base-16 magnitude
/// fits the digits left after an optional sign.
pub open spec fn int_fits_field(i: int) -> bool {
    if i >= 0 {
        i < pow16(9)
    } else {
        -i < pow16(8)
    }
}

/// The nine-byte field of an integer: nine base-16 digits, or a minus sign
/// and eight base-16 digits of the magnitude, left-padded with zero digits.
pub open spec fn int_hex_field(i: int) -> Seq<u8> {
    if i >= 0 {
        hex_fixed(i, 9)
    } else {
        seq![45u8] + hex_fixed(-i, 8)
    }
}

/// Two base-16 digit bytes for each byte, in order.
pub open spec fn bytes_hex(bs: Seq<u8>) -> Seq<u8>
    decreases bs.len(),
{
    if bs.len() == 0 {
        Seq::empty()
    } else {
        bytes_hex(bs.drop_last()) + seq![
            hex_digit_byte((bs.last() / 16) as int),
            hex_digit_byte((bs.last() % 16) as int),
        ]
    }
}

/// A run of zero-digit bytes.
pub open spec fn zero_digits(k: int) -> Seq<u8> {
    Seq::new(k as nat, |i: int| 48u8)
}

/// The sixteen-byte field of a text value: the base-16 digits of its UTF-8
/// bytes, left-padded with zero digits.
pub open spec fn string_hex_field(bs: Seq<u8>) -> Seq<u8> {
    zero_digits(16 - 2 * bs.len()) + bytes_hex(bs)
}

pub open spec fn encode_ok(v: Seq<char>, t: ColumnType) -> bool {
    match t {
        ColumnType::INT => match int_of_dec_str(v) {
            Some(i) => i64::MIN <= i <= i64::MAX && int_fits_field(i),
            None => false,
        },
        ColumnType::STRING => 2 * encode_utf8(v).len() <= 16,
    }
}

pub open spec fn encoded_field(v: Seq<char>, t: ColumnType) -> Seq<u8> {
    match t {
        ColumnType::INT => match int_of_dec_str(v) {
            Some(i) => int_hex_field(i),
            None => Seq::empty(),
        },
        ColumnType::STRING => string_hex_field(encode_utf8(v)),
    }
}

pub open spec fn encode_err(v: Seq<char>, t: ColumnType) -> StoreError {
    match t {
        ColumnType::INT => match int_of_dec_str(v) {
            Some(i) => if i64::MIN <= i <= i64::MAX {
                StoreError::ValueTooWide
            } else {
                StoreError::NotAnInteger
            },
            None => StoreError::NotAnInteger,
        },
        ColumnType::STRING => StoreError::ValueTooWide,
    }
}

// ---------------------------------------------------------------------------
// What a field decodes to.
// ---------------------------------------------------------------------------

/// The integer a nine-byte field denotes: an optional minus sign, then
/// base-16 digits.
pub open spec fn int_of_hex_field(f: Seq<u8>) -> Option<int> {
    if f.len() >= 2 && f[0] == 45 {
        if all_hex_digits(f.subrange(1, f.len() as int)) {
            Some(-hex_nat_of(f.subrange(1, f.len() as int)))
        } else {
            None
        }
    } else if f.len() >= 1 && all_hex_digits(f) {
        Some(hex_nat_of(f))
    } else {
        None
    }
}

/// The bytes denoted by consecutive pairs of base-16 digits.
pub open spec fn hex_pairs_val(f: Seq<u8>) -> Seq<u8>
    decreases f.len(),
{
    if f.len() < 2 {
        Seq::empty()
    } else {
        hex_pairs_val(f.subrange(0, f.len() - 2)) + seq![
            (hex_digit_val(f[f.len() - 2]) * 16 + hex_digit_val(f.last())) as u8,
        ]
    }
}

/// The bytes with leading zero bytes removed.
pub open spec fn strip_nul(s: Seq<u8>) -> Seq<u8>
    decreases s.len(),
{
    if s.len() > 0 && s[0] == 0 {
        strip_nul(s.drop_first())
    } else {
        s
    }
}

pub open spec fn decode_ok(f: Seq<u8>, t: ColumnType) -> bool {
    match t {
        ColumnType::INT => f.len() == 9 && int_of_hex_field(f) is Some,
        ColumnType::STRING => f.len() == 16 && all_hex_digits(f) && valid_utf8(
            strip_nul(hex_pairs_val(f)),
        ),
    }
}

pub open spec fn decoded_field(f: Seq<u8>, t: ColumnType) -> Seq<char> {
    match t {
        ColumnType::INT => match int_of_hex_field(f) {
            Some(i) => dec_str_of_int(i),
            None => Seq::empty(),
        },
        ColumnType::STRING => decode_utf8(strip_nul(hex_pairs_val(f))),
    }
}

// ---------------------------------------------------------------------------
// Trusted boundary.
// ---------------------------------------------------------------------------

/// Relies on `String::from_utf8`: succeeds exactly on valid UTF-8 input, and
/// then returns the string whose UTF-8 encoding is the input bytes.
#[verifier::external_body]
pub(crate) fn string_from_utf8(v: Vec<u8>) -> (r: Option<String>)
    ensures
        r is Some <==> valid_utf8(v@),
        r matches Some(s) ==> encode_utf8(s@) == v@,
{
    String::from_utf8(v).ok()
}

// ---------------------------------------------------------------------------
// Encoding.
// ---------------------------------------------------------------------------

/// Encodes one column value into its fixed-width field.
///
/// An INT value must parse as a signed 64-bit decimal integer and its
/// base-16 form must fit nine bytes; a STRING value's UTF-8 bytes, two
/// base-16 digits each, must fit sixteen bytes.
pub fn encode(value: &str, column: &ColumnDefinition) -> (r: Result<Vec<u8>, StoreError>)
    ensures
        r is Ok <==> encode_ok(value@, column.column_type),
        r matches Ok(f) ==> f@ == encoded_field(value@, column.column_type),
        r matches Ok(f) ==> f@.len() == col_width(column.column_type),
        r matches Err(e) ==> e == encode_err(value@, column.column_type),
{
    match column.column_type {
        ColumnType::INT => {
            proof {
                lemma_pow16_values();
            }
            match parse_i64_dec(value) {
                None => Err(StoreError::NotAnInteger),
                Some(i) => {
                    if i >= 0 {
                        if i < 68719476736i64 {
                            let mut f: Vec<u8> = Vec::new();
                            push_hex_fixed(i as u64, 9, &mut f);
                            proof {
                                lemma_hex_fixed_wf(i as int, 9);
                                assert(f@ =~= int_hex_field(i as int));
                            }
                            Ok(f)
                        } else {
                            Err(StoreError::ValueTooWide)
                        }
                    } else {
                        let mag: u64 = ((-(i + 1)) as u64) + 1;
                        proof {
                            assert(mag as int == -(i as int));
                        }
                        if mag < 4294967296u64 {
                            let mut f: Vec<u8> = Vec::new();
                            f.push(45u8);
                            push_hex_fixed(mag, 8, &mut f);
                            proof {
                                lemma_hex_fixed_wf(mag as int, 8);
                                assert(f@ =~= int_hex_field(i as int));
                            }
                            Ok(f)
                        } else {
                            Err(StoreError::ValueTooWide)
                        }
                    }
                },
            }
        },
        ColumnType::STRING => {
            let bv = value.as_bytes_vec();
            if bv.len() > 8 {
                return Err(StoreError::ValueTooWide);
            }
            let pad: usize = 16 - 2 * bv.len();
            let mut f: Vec<u8> = Vec::new();
            let mut k: usize = 0;
            while k < pad
                invariant
                    k <= pad,
                    f@ == zero_digits(k as int),
                decreases pad - k,
            {
                f.push(48u8);
                proof {
                    assert(f@ =~= zero_digits(k + 1));
                }
                k = k + 1;
            }
            let mut j: usize = 0;
            proof {
                assert(bv@.subrange(0, 0) =~= Seq::<u8>::empty());
                assert(f@ =~= zero_digits(pad as int) + bytes_hex(bv@.subrange(0, 0)));
            }
            while j < bv.len()
                invariant
                    j <= bv@.len(),
                    2 * bv@.len() <= 16,
                    pad == 16 - 2 * bv@.len(),
                    f@ == zero_digits(pad as int) + bytes_hex(bv@.subrange(0, j as int)),
                decreases bv@.len() - j,
            {
                let b = bv[j];
                let hi: u8 = b / 16;
                let lo: u8 = b % 16;
                let hib: u8 = if hi < 10 {
                    48 + hi
                } else {
                    87 + hi
                };
                let lob: u8 = if lo < 10 {
                    48 + lo
                } else {
                    87 + lo
                };
                f.push(hib);
                f.push(lob);
                proof {
                    let pre = bv@.subrange(0, j as int);
                    let ext = bv@.subrange(0, j + 1);
                    assert(ext.drop_last() =~= pre);
                    assert(ext.last() == b);
                    assert(hib == hex_digit_byte((b / 16) as int));
                    assert(lob == hex_digit_byte((b % 16) as int));
                    assert(f@ =~= zero_digits(pad as int) + bytes_hex(ext));
                }
                j = j + 1;
            }
            proof {
                assert(bv@.subrange(0, bv@.len() as int) =~= bv@);
                assert(f@ == string_hex_field(encode_utf8(value@)));
                lemma_bytes_hex_wf(bv@);
                assert(f@.len() == 16);
            }
            Ok(f)
        },
    }
}

pub proof fn lemma_bytes_hex_wf(bs: Seq<u8>)
    ensures
        bytes_hex(bs).len() == 2 * bs.len(),
        all_hex_digits(bytes_hex(bs)),
    decreases bs.len(),
{
    if bs.len() > 0 {
        lemma_bytes_hex_wf(bs.drop_last());
        let p = bytes_hex(bs.drop_last());
        let s = bytes_hex(bs);
        assert(0 <= bs.last() / 16 < 16 && 0 <= bs.last() % 16 < 16);
        assert(is_hex_digit_byte(hex_digit_byte((bs.last() / 16) as int)));
        assert(is_hex_digit_byte(hex_digit_byte((bs.last() % 16) as int)));
        assert forall|i: int| 0 <= i < s.len() implies is_hex_digit_byte(#[trigger] s[i]) by {
            if i < p.len() {
                assert(s[i] == p[i]);
            } else if i == p.len() {
                assert(s[i] == hex_digit_byte((bs.last() / 16) as int));
            } else {
                assert(s[i] == hex_digit_byte((bs.last() % 16) as int));
            }
        }
    }
}

/// The encoded field of a value occupies exactly the column's width.
pub proof fn lemma_encoded_field_len(v: Seq<char>, t: ColumnType)
    requires
        encode_ok(v, t),
    ensures
        encoded_field(v, t).len() == col_width(t),
{
    match t {
        ColumnType::INT => {
            let i = int_of_dec_str(v).unwrap();
            if i >= 0 {
                lemma_hex_fixed_wf(i, 9);
            } else {
                lemma_hex_fixed_wf(-i, 8);
            }
        },
        ColumnType::STRING => {
            lemma_bytes_hex_wf(encode_utf8(v));
        },
    }
}

// ---------------------------------------------------------------------------
// Decoding.
// ---------------------------------------------------------------------------

/// Decodes one fixed-width field back into its column value.
///
/// An INT field is read as an optionally signed base-16 number and rendered
/// in decimal; a STRING field's base-16 digit pairs are read back into
/// bytes, leading zero bytes (the padding) are dropped, and the rest must be
/// valid UTF-8.
pub fn convert_bytes_to_column(value: &[u8], schema: &ColumnDefinition) -> (r: Result<
    String,
    StoreError,
>)
    ensures
        r is Ok <==> decode_ok(value@, schema.column_type),
        r matches Ok(s) ==> s@ == decoded_field(value@, schema.column_type),
        r matches Err(e) ==> e == StoreError::MalformedField,
{
    match schema.column_type {
        ColumnType::INT => {
            if value.len() != 9 {
                return Err(StoreError::MalformedField);
            }
            proof {
                lemma_pow16_values();
            }
            if value[0] == 45u8 {
                match hex_value(value, 1, 9) {
                    None => Err(StoreError::MalformedField),
                    Some(m) => {
                        proof {
                            lemma_hex_nat_of_bound(value@.subrange(1, 9));
                            lemma_pow16_mono_small();
                        }
                        let i: i64 = -(m as i64);
                        Ok(i64_dec_string(i))
                    },
                }
            } else {
                match hex_value(value, 0, 9) {
                    None => {
                        proof {
                            assert(value@.subrange(0, 9) =~= value@);
                        }
                        Err(StoreError::MalformedField)
                    },
                    Some(m) => {
                        proof {
                            assert(value@.subrange(0, 9) =~= value@);
                            lemma_hex_nat_of_bound(value@);
                            lemma_pow16_mono_small();
                        }
                        let i: i64 = m as i64;
                        Ok(i64_dec_string(i))
                    },
                }
            }
        },
        ColumnType::STRING => {
            if value.len() != 16 {
                return Err(StoreError::MalformedField);
            }
            let mut raw: Vec<u8> = Vec::new();
            let mut j: usize = 0;
            proof {
                assert(value@.subrange(0, 0) =~= Seq::<u8>::empty());
            }
            while j < 8
                invariant
                    j <= 8,
                    value@.len() == 16,
                    all_hex_digits(value@.subrange(0, 2 * j as int)),
                    raw@ == hex_pairs_val(value@.subrange(0, 2 * j as int)),
                decreases 8 - j,
            {
                let hb = value[2 * j];
                let lb = value[2 * j + 1];
                let hv: u8 = if 48 <= hb && hb <= 57 {
                    hb - 48
                } else if 97 <= hb && hb <= 102 {
                    hb - 87
                } else if 65 <= hb && hb <= 70 {
                    hb - 55
                } else {
                    proof {
                        assert(!is_hex_digit_byte(value@[2 * j as int]));
                    }
                    return Err(StoreError::MalformedField);
                };
                let lv: u8 = if 48 <= lb && lb <= 57 {
                    lb - 48
                } else if 97 <= lb && lb <= 102 {
                    lb - 87
                } else if 65 <= lb && lb <= 70 {
                    lb - 55
                } else {
                    proof {
                        assert(!is_hex_digit_byte(value@[2 * j + 1]));
                    }
                    return Err(StoreError::MalformedField);
                };
                raw.push(hv * 16 + lv);
                proof {
                    let pre = value@.subrange(0, 2 * j as int);
                    let ext = value@.subrange(0, 2 * j + 2);
                    assert(ext.subrange(0, ext.len() - 2) =~= pre);
                    assert(ext[ext.len() - 2] == value@[2 * j as int]);
                    assert(ext.last() == value@[2 * j + 1]);
                    assert(hv as int == hex_digit_val(value@[2 * j as int]));
                    assert(lv as int == hex_digit_val(value@[2 * j + 1]));
                    assert(forall|k: int| 0 <= k < pre.len() ==> ext[k] == #[trigger] pre[k]);
                    assert(raw@ =~= hex_pairs_val(ext));
                }
                j = j + 1;
            }
            proof {
                assert(value@.subrange(0, 16) =~= value@);
            }
            let mut k: usize = 0;
            while k < raw.len() && raw[k] == 0u8
                invariant
                    k <= raw@.len(),
                    forall|t: int| 0 <= t < k ==> raw@[t] == 0,
                decreases raw@.len() - k,
            {
                k = k + 1;
            }
            let mut stripped: Vec<u8> = Vec::new();
            let mut t: usize = k;
            while t < raw.len()
                invariant
                    k <= t <= raw@.len(),
                    stripped@ == raw@.subrange(k as int, t as int),
                decreases raw@.len() - t,
            {
                stripped.push(raw[t]);
                proof {
                    assert(stripped@ =~= raw@.subrange(k as int, t + 1));
                }
                t = t + 1;
            }
            proof {
                lemma_strip_nul_at(raw@, k as int);
                assert(stripped@ == strip_nul(raw@));
            }
            match string_from_utf8(stripped) {
                None => Err(StoreError::MalformedField),
                Some(s) => {
                    proof {
                        vstd::utf8::encode_utf8_decode_utf8(s@);
                    }
                    Ok(s)
                },
            }
        },
    }
}

proof fn lemma_pow16_mono_small()
    ensures
        pow16(8) < pow16(9) < i64::MAX,
{
    lemma_pow16_values();
}

/// Stripping leading zero bytes keeps the suffix from the first non-zero
/// byte on.
pub proof fn lemma_strip_nul_at(s: Seq<u8>, k: int)
    requires
        0 <= k <= s.len(),
        forall|t: int| 0 <= t < k ==> s[t] == 0,
        k == s.len() || s[k] != 0,
    ensures
        strip_nul(s) == s.subrange(k, s.len() as int),
    decreases k,
{
    if k == 0 {
        if s.len() > 0 && s[0] == 0 {
            assert(false);
        }
        assert(s.subrange(0, s.len() as int) =~= s);
    } else {
        assert(s[0] == 0);
        let d = s.drop_first();
        assert(forall|t: int| 0 <= t < k - 1 ==> d[t] == #[trigger] s[t + 1]);
        lemma_strip_nul_at(d, k - 1);
        assert(d.subrange(k - 1, d.len() as int) =~= s.subrange(k, s.len() as int));
    }
}

// ---------------------------------------------------------------------------
// The round trip: decoding an encoded value gives the value back.
// ---------------------------------------------------------------------------

/// For every integer within the field width, the encoded field decodes to
/// the canonical decimal numeral of that integer.
pub proof fn lemma_codec_roundtrip_int(i: int)
    requires
        int_fits_field(i),
    ensures
        encode_ok(dec_str_of_int(i), ColumnType::INT),
        decode_ok(int_hex_field(i), ColumnType::INT),
        decoded_field(int_hex_field(i), ColumnType::INT) == dec_str_of_int(i),
        encoded_field(dec_str_of_int(i), ColumnType::INT) == int_hex_field(i),
{
    lemma_dec_int_roundtrip(i);
    lemma_pow16_values();
    let f = int_hex_field(i);
    if i >= 0 {
        lemma_hex_fixed_wf(i, 9);
        lemma_hex_fixed_roundtrip(i, 9);
        assert(is_hex_digit_byte(f[0]));
        assert(f[0] != 45);
        assert(int_of_hex_field(f) == Some(i));
    } else {
        lemma_hex_fixed_wf(-i, 8);
        lemma_hex_fixed_roundtrip(-i, 8);
        assert(f[0] == 45);
        assert(f.len() == 9);
        assert(f.subrange(1, 9) =~= hex_fixed(-i, 8));
        assert(int_of_hex_field(f) == Some(i));
    }
}

proof fn lemma_hex_pairs_snoc(f: Seq<u8>, b: u8)
    ensures
        hex_pairs_val(f + seq![hex_digit_byte((b / 16) as int), hex_digit_byte((b % 16) as int)]) == hex_pairs_val(f)
            + seq![b],
{
    let two = seq![hex_digit_byte((b / 16) as int), hex_digit_byte((b % 16) as int)];
    let e = f + two;
    assert(e.len() == f.len() + 2);
    assert(e.subrange(0, e.len() - 2) =~= f);
    assert(e[e.len() - 2] == hex_digit_byte((b / 16) as int));
    assert(e.last() == hex_digit_byte((b % 16) as int));
    assert(hex_digit_val(hex_digit_byte((b / 16) as int)) == b / 16);
    assert(hex_digit_val(hex_digit_byte((b % 16) as int)) == b % 16);
    assert((b / 16) * 16 + b % 16 == b);
    assert(hex_pairs_val(e) =~= hex_pairs_val(f) + seq![b]);
}

proof fn lemma_hex_pairs_of_bytes(prefix: Seq<u8>, bs: Seq<u8>)
    ensures
        hex_pairs_val(prefix + bytes_hex(bs)) == hex_pairs_val(prefix) + bs,
    decreases bs.len(),
{
    if bs.len() == 0 {
        assert(prefix + bytes_hex(bs) =~= prefix);
        assert(hex_pairs_val(prefix) + bs =~= hex_pairs_val(prefix));
    } else {
        lemma_hex_pairs_of_bytes(prefix, bs.drop_last());
        let b = bs.last();
        let two = seq![hex_digit_byte((b / 16) as int), hex_digit_byte((b % 16) as int)];
        assert(prefix + bytes_hex(bs) =~= (prefix + bytes_hex(bs.drop_last())) + two);
        lemma_hex_pairs_snoc(prefix + bytes_hex(bs.drop_last()), b);
        assert(hex_pairs_val(prefix) + bs =~= (hex_pairs_val(prefix) + bs.drop_last()) + seq![b]);
    }
}

proof fn lemma_hex_pairs_zeros(k: int)
    requires
        k >= 0,
    ensures
        hex_pairs_val(zero_digits(2 * k)) == Seq::new(k as nat, |i: int| 0u8),
    decreases k,
{
    if k == 0 {
        assert(zero_digits(0).len() == 0);
        assert(Seq::new(0, |i: int| 0u8) =~= hex_pairs_val(zero_digits(0)));
    } else {
        lemma_hex_pairs_zeros(k - 1);
        let z = zero_digits(2 * k);
        assert(z.subrange(0, z.len() - 2) =~= zero_digits(2 * (k - 1)));
        assert(z[z.len() - 2] == 48 && z.last() == 48);
        assert(hex_digit_val(48) == 0);
        assert(hex_pairs_val(z) =~= Seq::new(k as nat, |i: int| 0u8));
    }
}

proof fn lemma_strip_zero_run(k: int, s: Seq<u8>)
    requires
        k >= 0,
        s.len() == 0 || s[0] != 0,
    ensures
        strip_nul(Seq::new(k as nat, |i: int| 0u8) + s) == s,
    decreases k,
{
    if k == 0 {
        assert(Seq::new(0, |i: int| 0u8) + s =~= s);
    } else {
        let z = Seq::new(k as nat, |i: int| 0u8) + s;
        assert(z[0] == 0);
        assert(z.drop_first() =~= Seq::new((k - 1) as nat, |i: int| 0u8) + s);
        lemma_strip_zero_run(k - 1, s);
    }
}

/// For every text value whose UTF-8 bytes fit the field and do not start
/// with a zero byte, the encoded field decodes to the value.
pub proof fn lemma_codec_roundtrip_string(v: Seq<char>)
    requires
        2 * encode_utf8(v).len() <= 16,
        encode_utf8(v).len() > 0 ==> encode_utf8(v)[0] != 0,
    ensures
        encode_ok(v, ColumnType::STRING),
        decode_ok(string_hex_field(encode_utf8(v)), ColumnType::STRING),
        decoded_field(string_hex_field(encode_utf8(v)), ColumnType::STRING) == v,
{
    let eb = encode_utf8(v);
    let f = string_hex_field(eb);
    let pad = 16 - 2 * eb.len();
    lemma_bytes_hex_wf(eb);
    assert(f.len() == 16);
    assert(all_hex_digits(f)) by {
        assert(forall|i: int|
            0 <= i < pad ==> #[trigger] f[i] == 48);
        assert(forall|i: int|
            pad <= i < 16 ==> #[trigger] f[i] == bytes_hex(eb)[i - pad]);
        assert(is_hex_digit_byte(48));
    }
    assert(hex_pairs_val(f) == Seq::new((pad / 2) as nat, |i: int| 0u8) + eb) by {
        assert(zero_digits(pad) + bytes_hex(eb) =~= f);
        lemma_hex_pairs_of_bytes(zero_digits(pad), eb);
        lemma_hex_pairs_zeros(pad / 2);
        assert(zero_digits(2 * (pad / 2)) =~= zero_digits(pad));
    }
    lemma_strip_zero_run(pad / 2, eb);
    assert(strip_nul(hex_pairs_val(f)) == eb);
    vstd::utf8::encode_utf8_valid_utf8(v);
    vstd::utf8::encode_utf8_decode_utf8(v);
}

} // verus!

verus! {

// ---------------------------------------------------------------------------
// Whole rows.
// ---------------------------------------------------------------------------

/// The byte width of a whole row: the sum of its columns' fixed widths.
pub open spec fn row_width(cols: Seq<ColumnDefinition>) -> int
    decreases cols.len(),
{
    if cols.len() == 0 {
        0
    } else {
        row_width(cols.drop_last()) + col_width(cols.last().column_type)
    }
}

/// The byte offset of column `j` within a row.
pub open spec fn col_offset(cols: Seq<ColumnDefinition>, j: int) -> int {
    row_width(cols.subrange(0, j))
}

/// The field of column `j` within an encoded row.
pub open spec fn field_at(row: Seq<u8>, cols: Seq<ColumnDefinition>, j: int) -> Seq<u8> {
    row.subrange(col_offset(cols, j), col_offset(cols, j) + col_width(cols[j].column_type))
}

/// Every field of the row decodes.
pub open spec fn row_ok(row: Seq<u8>, cols: Seq<ColumnDefinition>) -> bool {
    forall|j: int|
        0 <= j < cols.len() ==> decode_ok(field_at(row, cols, j), (#[trigger] cols[j]).column_type)
}

/// The decoded values of a row, one per column, in ordinal order.
pub open spec fn row_values(row: Seq<u8>, cols: Seq<ColumnDefinition>) -> Seq<Seq<char>> {
    Seq::new(cols.len(), |j: int| decoded_field(field_at(row, cols, j), cols[j].column_type))
}

pub proof fn lemma_row_width_nonneg(cols: Seq<ColumnDefinition>)
    ensures
        row_width(cols) >= 0,
    decreases cols.len(),
{
    if cols.len() > 0 {
        lemma_row_width_nonneg(cols.drop_last());
    }
}

/// Column offsets advance by exactly one column width.
pub proof fn lemma_col_offset_step(cols: Seq<ColumnDefinition>, j: int)
    requires
        0 <= j < cols.len(),
    ensures
        col_offset(cols, j + 1) == col_offset(cols, j) + col_width(cols[j].column_type),
{
    let p = cols.subrange(0, j);
    let q = cols.subrange(0, j + 1);
    assert(q.drop_last() =~= p);
    assert(q.last() == cols[j]);
}

/// Every column's field lies inside the row.
pub proof fn lemma_col_offset_bounds(cols: Seq<ColumnDefinition>, j: int)
    requires
        0 <= j <= cols.len(),
    ensures
        0 <= col_offset(cols, j) <= row_width(cols),
    decreases cols.len() - j,
{
    lemma_row_width_nonneg(cols.subrange(0, j));
    if j == cols.len() {
        assert(cols.subrange(0, j) =~= cols);
    } else {
        lemma_col_offset_bounds(cols, j + 1);
        lemma_col_offset_step(cols, j);
    }
}

/// Slices one whole row into its fields and decodes each column in order.
pub fn read_row(row: &Vec<u8>, schema: &Vec<ColumnDefinition>) -> (r: Result<
    Vec<String>,
    StoreError,
>)
    requires
        row@.len() == row_width(schema@),
    ensures
        r is Ok <==> row_ok(row@, schema@),
        r matches Ok(vals) ==> vals.deep_view() == row_values(row@, schema@),
        r matches Err(e) ==> e == StoreError::MalformedField,
{
    let mut vals: Vec<String> = Vec::new();
    let rlen = row.len();
    let mut pos: usize = 0;
    let mut j: usize = 0;
    proof {
        assert(schema@.subrange(0, 0) =~= Seq::<ColumnDefinition>::empty());
    }
    while j < schema.len()
        invariant
            j <= schema@.len(),
            rlen == row@.len(),
            row@.len() == row_width(schema@),
            pos as int == col_offset(schema@, j as int),
            vals.deep_view().len() == j as int,
            forall|t: int|
                0 <= t < j ==> vals.deep_view()[t] == decoded_field(
                    field_at(row@, schema@, t),
                    (#[trigger] schema@[t]).column_type,
                ),
            forall|t: int|
                0 <= t < j ==> decode_ok(
                    field_at(row@, schema@, t),
                    (#[trigger] schema@[t]).column_type,
                ),
        decreases schema@.len() - j,
    {
        let col = &schema[j];
        let size: usize = match col.column_type {
            ColumnType::INT => 9,
            ColumnType::STRING => 16,
        };
        proof {
            lemma_col_offset_step(schema@, j as int);
            lemma_col_offset_bounds(schema@, j + 1);
            assert(pos as int + size as int <= rlen);
        }
        let mut field: Vec<u8> = Vec::new();
        let mut k: usize = 0;
        proof {
            assert(field@ =~= row@.subrange(pos as int, pos as int));
        }
        while k < size
            invariant
                k <= size,
                rlen == row@.len(),
                pos + size <= row@.len(),
                field@ == row@.subrange(pos as int, pos as int + k),
            decreases size - k,
        {
            field.push(row[pos + k]);
            proof {
                assert(field@ =~= row@.subrange(pos as int, pos as int + k + 1));
            }
            k = k + 1;
        }
        proof {
            assert(field@ == field_at(row@, schema@, j as int));
        }
        match convert_bytes_to_column(field.as_slice(), col) {
            Err(e) => {
                return Err(e);
            },
            Ok(v) => {
                vals.push(v);
            },
        }
        pos = pos + size;
        j = j + 1;
    }
    proof {
        assert(vals.deep_view() =~= row_values(row@, schema@));
    }
    Ok(vals)
}

} // verus!
