use vstd::prelude::*;

use rand::Rng;

use crate::codec::{encode_ok, int_fits_field};
use crate::domain::{encode_row_ok, encoded_row, with_rowid, ColumnType};
use crate::numerals::{
    dec_str_of_int, int_of_dec_str, lemma_dec_int_roundtrip, lemma_pow16_values,
};
use crate::text::ascii_char;
use crate::utils::{table_data_wf, TableData};

verus! {

/// An ASCII letter or digit.
pub open spec fn alnum_char(c: char) -> bool {
    (48 <= (c as u32) <= 57) || (65 <= (c as u32) <= 90) || (97 <= (c as u32) <= 122)
}

/// Relies on rand's `thread_rng` and `Rng::gen`: some machine integer;
/// nothing can be promised of its value.
#[verifier::external_body]
fn random_u16() -> u16 {
    rand::thread_rng().gen::<u16>()
}

/// Relies on rand's `Alphanumeric` distribution, which samples only ASCII
/// letters and digits: `len` such characters, whatever they are.
#[verifier::external_body]
fn random_alphanumeric(len: usize) -> (s: String)
    ensures
        s@.len() == len,
        forall|i: int| 0 <= i < s@.len() ==> alnum_char(#[trigger] s@[i]),
{
    rand::thread_rng().sample_iter(&rand::distributions::Alphanumeric).take(len).map(
        char::from,
    ).collect()
}

/// A decimal numeral of a small non-negative integer always encodes as an
/// INT field.
proof fn lemma_small_int_encodes(v: int)
    requires
        0 <= v < 0x1000000000,
    ensures
        encode_ok(dec_str_of_int(v), ColumnType::INT),
{
    lemma_dec_int_roundtrip(v);
    lemma_pow16_values();
    assert(int_of_dec_str(dec_str_of_int(v)) == Some(v));
    assert(int_fits_field(v));
}

/// Eight ASCII characters always encode as a STRING field.
proof fn lemma_alnum_encodes(s: Seq<char>)
    requires
        s.len() == 8,
        forall|i: int| 0 <= i < s.len() ==> alnum_char(#[trigger] s[i]),
    ensures
        encode_ok(s, ColumnType::STRING),
{
    assert(vstd::utf8::is_ascii_chars(s)) by {
        crate::index::lemma_ascii_forms(s);
        assert(forall|i: int| 0 <= i < s.len() ==> ascii_char(#[trigger] s[i]));
    }
    vstd::utf8::is_ascii_chars_encode_utf8(s);
    assert(vstd::utf8::encode_utf8(s).len() == 8);
}

/// Some values, one per declared column, encode to this chunk under the
/// given row identifier.
pub open spec fn row_of_some_values(
    chunk: Seq<u8>,
    cols: Seq<crate::domain::ColumnDefinition>,
    rid: int,
) -> bool {
    exists|vals: Seq<Seq<char>>|
        vals.len() + 1 == cols.len() && chunk == encoded_row(#[trigger] with_rowid(vals, rid), cols)
}

/// Generates `num` rows of random fixture values — the decimal of a random
/// 16-bit integer for an INT column, eight random alphanumeric characters
/// for a STRING column — and encodes them with fresh row identifiers
/// `last_row_id + 1` onward, ready to append to the data file.
#[verifier::loop_isolation(false)]
pub fn random(td: &TableData, num: usize) -> (r: (Vec<u8>, i32))
    requires
        table_data_wf(*td),
        td.last_row_id >= -1,
        td.last_row_id + num <= i32::MAX,
        td.schema@[0].column_type == ColumnType::INT,
    ensures
        r.1 == td.last_row_id + num,
        r.0@.len() == num * td.row_size,
        forall|i: int|
            0 <= i < num ==> row_of_some_values(
                #[trigger] crate::store::chunks(r.0@, td.row_size as int)[i],
                td.schema@,
                td.last_row_id + 1 + i,
            ),
{
    let w = td.row_size;
    proof {
        crate::domain::lemma_row_width_min(td.schema@);
    }
    let mut bytes: Vec<u8> = Vec::new();
    let mut i: usize = 0;
    while i < num
        invariant
            i <= num,
            bytes@.len() == i * w,
            forall|t: int|
                0 <= t < i ==> row_of_some_values(
                    #[trigger] bytes@.subrange(t * w, t * w + w),
                    td.schema@,
                    td.last_row_id + 1 + t,
                ),
        decreases num - i,
    {
        let mut values: Vec<String> = Vec::new();
        let mut j: usize = 1;
        while j < td.schema.len()
            invariant
                1 <= j <= td.schema@.len(),
                values@.len() == j - 1,
                forall|t: int|
                    0 <= t < j - 1 ==> encode_ok(
                        values.deep_view()[t],
                        (#[trigger] td.schema@[t + 1]).column_type,
                    ),
            decreases td.schema@.len() - j,
        {
            let v: String = match td.schema[j].column_type {
                ColumnType::INT => {
                    let n16 = random_u16();
                    let s = crate::numerals::i64_dec_string(n16 as i64);
                    proof {
                        lemma_small_int_encodes(n16 as int);
                    }
                    s
                },
                ColumnType::STRING => {
                    let s = random_alphanumeric(8);
                    proof {
                        lemma_alnum_encodes(s@);
                    }
                    s
                },
            };
            let ghost old_dv = values.deep_view();
            let ghost vv = v@;
            values.push(v);
            proof {
                assert(values.deep_view() =~~= old_dv.push(vv));
            }
            j = j + 1;
        }
        let id64: i64 = td.last_row_id as i64 + 1 + i as i64;
        let rid: u32 = id64 as u32;
        let ghost vals = with_rowid(values.deep_view(), rid as int);
        proof {
            lemma_small_int_encodes(rid as int);
            lemma_dec_int_roundtrip(rid as int);
            assert(vals.len() == td.schema@.len());
            assert forall|t: int| 0 <= t < td.schema@.len() implies encode_ok(
                vals[t],
                (#[trigger] td.schema@[t]).column_type,
            ) by {
                if t == 0 {
                    assert(vals[0] == dec_str_of_int(rid as int));
                } else {
                    assert(vals[t] == values.deep_view()[t - 1]);
                    assert(td.schema@[t] == td.schema@[(t - 1) + 1]);
                    assert(encode_ok(values.deep_view()[t - 1], td.schema@[(t - 1) + 1].column_type));
                }
            }
            assert(encode_row_ok(vals, td.schema@));
        }
        match crate::domain::insert(&td.schema, &values, rid) {
            Err(e) => {
                proof {
                    assert(false);
                }
                return (bytes, 0);
            },
            Ok(row) => {
                let ghost prev = bytes@;
                proof {
                    crate::domain::lemma_encoded_row_len(vals, td.schema@);
                }
                crate::store::append(&mut bytes, &row);
                proof {
                    assert(i as int * w + w == (i + 1) * w) by (nonlinear_arith);
                    assert forall|t: int| 0 <= t < i + 1 implies row_of_some_values(
                        #[trigger] bytes@.subrange(t * w, t * w + w),
                        td.schema@,
                        td.last_row_id + 1 + t,
                    ) by {
                        assert(t * w >= 0 && t * w + w <= prev.len() + w) by (nonlinear_arith)
                            requires
                                0 <= t < i + 1,
                                w >= 0,
                                prev.len() == i as int * w,
                        ;
                        if t < i {
                            assert(t * w + w <= i as int * w) by (nonlinear_arith)
                                requires
                                    0 <= t && t < i as int,
                                    w >= 0,
                            ;
                            assert(bytes@.subrange(t * w, t * w + w) =~= prev.subrange(
                                t * w,
                                t * w + w,
                            ));
                        } else {
                            assert(bytes@.subrange(t * w, t * w + w) =~= row@);
                            assert(bytes@.subrange(t * w, t * w + w) == encoded_row(
                                with_rowid(values.deep_view(), td.last_row_id + 1 + t),
                                td.schema@,
                            ));
                        }
                    }
                }
            },
        }
        i = i + 1;
    }
    proof {
        assert forall|i0: int| 0 <= i0 < num implies row_of_some_values(
            #[trigger] crate::store::chunks(bytes@, td.row_size as int)[i0],
            td.schema@,
            td.last_row_id + 1 + i0,
        ) by {
            let wi = td.row_size as int;
            assert(bytes@.len() as int / wi == num) by (nonlinear_arith)
                requires
                    wi >= 1,
                    bytes@.len() == num as int * wi,
            ;
            assert(crate::store::chunks(bytes@, wi)[i0] == bytes@.subrange(
                i0 * wi,
                i0 * wi + wi,
            ));
        }
    }
    let new64: i64 = td.last_row_id as i64 + num as i64;
    let new_last: i32 = new64 as i32;
    (bytes, new_last)
}

} // verus!
