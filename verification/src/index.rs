use vstd::prelude::*;
use vstd::string::StrSliceExecFns;

use crate::codec::{row_values, row_width, zero_digits};
use crate::domain::{rows_all_ok, ColumnDefinition};
use crate::error::StoreError;
use crate::index_util::{
    bst_insert, bst_level_order, bst_map, bst_new, bst_size, empty_entry_map, entry_of,
    inserted_map, map_listing, KeyValuePair,
};
use crate::numerals::{
    all_hex_digits, hex_fixed, hex_nat_of, hex_value, lemma_pow16_values, pow16, push_hex_fixed,
};
use crate::store::{chunks, read_slot};
use crate::text::{ascii_char, ascii_chars, bytes_cmp, lex_lt_bytes};
use crate::utils::TableData;

verus! {

/// The byte width of one serialized index record: a sixteen-byte key field
/// and nine base-16 digits of the row slot.
pub const RECORD_WIDTH: usize = 25;

/// The key part of a record: the key's bytes, left-padded with zero digits
/// to sixteen bytes. Keys are at most sixteen ASCII characters.
pub open spec fn key_field(k: Seq<char>) -> Seq<u8> {
    zero_digits(16 - k.len()) + k.map_values(|c: char| c as u8)
}

/// A key that fits the fixed-width record.
pub open spec fn key_fits(k: Seq<char>) -> bool {
    k.len() <= 16 && ascii_chars(k)
}

/// One serialized index record.
pub open spec fn record_of(e: (Seq<char>, int)) -> Seq<u8> {
    key_field(e.0) + hex_fixed(e.1, 9)
}

/// The concatenated records of the listed entries, in order.
pub open spec fn records_bytes(es: Seq<(Seq<char>, int)>) -> Seq<u8>
    decreases es.len(),
{
    if es.len() == 0 {
        Seq::empty()
    } else {
        records_bytes(es.drop_last()) + record_of(es.last())
    }
}

/// The decoded values of one column, one per row slot, in slot order.
pub open spec fn column_values(data: Seq<u8>, cols: Seq<ColumnDefinition>, pos: int) -> Seq<
    Seq<char>,
> {
    Seq::new(
        chunks(data, row_width(cols)).len(),
        |i: int| row_values(chunks(data, row_width(cols))[i], cols)[pos],
    )
}

/// The position map after inserting every value with its slot, in slot
/// order (slot zero first).
pub open spec fn built_map(vals: Seq<Seq<char>>) -> Map<int, (Seq<char>, int)>
    decreases vals.len(),
{
    if vals.len() == 0 {
        empty_entry_map()
    } else {
        inserted_map(built_map(vals.drop_last()), (vals.last(), vals.len() - 1))
    }
}

/// The final index map: when the entry count is even, one placeholder
/// entry with an empty key and slot zero is inserted, keeping the record
/// count odd.
pub open spec fn padded_map(vals: Seq<Seq<char>>) -> Map<int, (Seq<char>, int)> {
    let m = built_map(vals);
    if m.len() % 2 == 0 {
        inserted_map(m, (Seq::empty(), 0))
    } else {
        m
    }
}

/// The built position map is finite, one entry per value, every position
/// non-negative, and its entries are exactly the values paired with their
/// slots.
pub proof fn lemma_built_map_wf(vals: Seq<Seq<char>>)
    ensures
        built_map(vals).dom().finite(),
        built_map(vals).len() == vals.len(),
        forall|p: int| #[trigger] built_map(vals).dom().contains(p) ==> p >= 0,
        forall|p: int|
            #[trigger] built_map(vals).dom().contains(p) ==> exists|i: int|
                0 <= i < vals.len() && built_map(vals)[p] == (vals[i], i),
        forall|i: int|
            0 <= i < vals.len() ==> exists|p: int|
                #[trigger] built_map(vals).dom().contains(p) && built_map(vals)[p] == (
                #[trigger] vals[i],
                i,
                ),
    decreases vals.len(),
{
    if vals.len() == 0 {
    } else {
        let pre = built_map(vals.drop_last());
        lemma_built_map_wf(vals.drop_last());
        let x = (vals.last(), vals.len() - 1);
        let q = crate::index_util::bst_insert_pos(pre, x, 0);
        crate::index_util::lemma_insert_pos_fresh(pre, x, 0);
        let m = built_map(vals);
        assert(m == pre.insert(q, x));
        assert(m.dom() == pre.dom().insert(q));
        assert(m.len() == pre.len() + 1) by {
            assert(!pre.dom().contains(q));
        }
        assert forall|p: int| #[trigger] m.dom().contains(p) implies exists|i: int|
            0 <= i < vals.len() && m[p] == (vals[i], i) by {
            if p == q {
                assert(vals[vals.len() - 1] == vals.last());
                assert(m[p] == (vals[vals.len() - 1], vals.len() - 1));
            } else {
                assert(pre.dom().contains(p));
                let i = choose|i: int|
                    0 <= i < vals.drop_last().len() && pre[p] == (vals.drop_last()[i], i);
                assert(vals.drop_last()[i] == vals[i]);
                assert(m[p] == (vals[i], i));
            }
        }
        assert forall|i: int| #![trigger vals[i]] 0 <= i < vals.len() implies exists|p: int|
            #[trigger] m.dom().contains(p) && m[p] == (vals[i], i) by {
            if i == vals.len() - 1 {
                assert(m.dom().contains(q) && m[q] == (vals[i], i));
            } else {
                assert(vals.drop_last()[i] == vals[i]);
                let p = choose|p: int|
                    #[trigger] pre.dom().contains(p) && pre[p] == (vals.drop_last()[i], i);
                assert(m.dom().contains(p) && m[p] == (vals[i], i));
            }
        }
    }
}

/// The padded map keeps those properties, allowing also the placeholder.
pub proof fn lemma_padded_map_wf(vals: Seq<Seq<char>>)
    ensures
        padded_map(vals).dom().finite(),
        vals.len() <= padded_map(vals).len() <= vals.len() + 1,
        forall|p: int| #[trigger] padded_map(vals).dom().contains(p) ==> p >= 0,
        forall|p: int|
            #[trigger] padded_map(vals).dom().contains(p) ==> (padded_map(vals)[p] == (
                Seq::<char>::empty(),
                0int,
            ) || exists|i: int| 0 <= i < vals.len() && padded_map(vals)[p] == (vals[i], i)),
        forall|i: int|
            0 <= i < vals.len() ==> exists|p: int|
                #[trigger] padded_map(vals).dom().contains(p) && padded_map(vals)[p] == (
                #[trigger] vals[i],
                i,
                ),
{
    lemma_built_map_wf(vals);
    let pre = built_map(vals);
    if pre.len() % 2 == 0 {
        let x = (Seq::<char>::empty(), 0int);
        let q = crate::index_util::bst_insert_pos(pre, x, 0);
        crate::index_util::lemma_insert_pos_fresh(pre, x, 0);
        let m = padded_map(vals);
        assert(m == pre.insert(q, x));
        assert(m.len() == pre.len() + 1) by {
            assert(!pre.dom().contains(q));
        }
        assert forall|i: int| #![trigger vals[i]] 0 <= i < vals.len() implies exists|p: int|
            #[trigger] m.dom().contains(p) && m[p] == (vals[i], i) by {
            let p = choose|p: int|
                #[trigger] pre.dom().contains(p) && pre[p] == (vals[i], i);
            assert(m.dom().contains(p) && m[p] == (vals[i], i));
        }
    }
}

/// Whether an index can be built for the column at ordinal `pos`: every
/// row decodes, every decoded value fits the record's key field, and there
/// are few enough rows for their slots to fit nine base-16 digits.
pub open spec fn index_ok(data: Seq<u8>, cols: Seq<ColumnDefinition>, pos: int) -> bool {
    &&& rows_all_ok(data, cols)
    &&& forall|i: int|
        0 <= i < column_values(data, cols, pos).len() ==> key_fits(
            #[trigger] column_values(data, cols, pos)[i],
        )
    &&& column_values(data, cols, pos).len() <= pow16(9)
}

/// The serialized index for the column at ordinal `pos`.
pub open spec fn index_bytes(data: Seq<u8>, cols: Seq<ColumnDefinition>, pos: int) -> Seq<u8> {
    records_bytes(map_listing(padded_map(column_values(data, cols, pos))))
}

/// Why an index cannot be built.
pub open spec fn index_err(data: Seq<u8>, cols: Seq<ColumnDefinition>) -> StoreError {
    if !rows_all_ok(data, cols) {
        StoreError::MalformedField
    } else {
        StoreError::ValueTooWide
    }
}

} // verus!

verus! {

proof fn lemma_ascii_char_form(c: char)
    ensures
        ('\0' <= c && c <= '\u{7f}') == ascii_char(c),
{
}

/// vstd's ASCII predicate and this crate's agree.
pub proof fn lemma_ascii_forms(s: Seq<char>)
    ensures
        vstd::utf8::is_ascii_chars(s) == ascii_chars(s),
{
    if vstd::utf8::is_ascii_chars(s) {
        assert forall|i: int| 0 <= i < s.len() implies ascii_char(#[trigger] s[i]) by {
            lemma_ascii_char_form(s[i]);
        }
    }
    if ascii_chars(s) {
        assert forall|i: int| 0 <= i < s.len() implies '\0' <= #[trigger] s[i] <= '\u{7f}' by {
            lemma_ascii_char_form(s[i]);
        }
    }
}

/// Serializes a listed sequence of index entries into fixed-width records.
/// Fails when a key does not fit the sixteen-byte key field.
fn serialize_records(listing: &Vec<KeyValuePair>) -> (r: Result<Vec<u8>, StoreError>)
    ensures
        r is Ok <==> (forall|t: int|
            0 <= t < listing@.len() ==> key_fits(entry_of(#[trigger] listing@[t]).0)),
        r matches Ok(out) ==> out@ == records_bytes(
            listing@.map_values(|kv: KeyValuePair| entry_of(kv)),
        ),
        r matches Err(e) ==> e == StoreError::ValueTooWide && (exists|t: int|
            0 <= t < listing@.len() && !key_fits(entry_of(#[trigger] listing@[t]).0)),
{
    let ghost lst = listing@.map_values(|kv: KeyValuePair| entry_of(kv));
    let mut out: Vec<u8> = Vec::new();
    let mut k: usize = 0;
    proof {
        assert(out@ =~= records_bytes(lst.subrange(0, 0)));
    }
    while k < listing.len()
        invariant
            k <= listing@.len(),
            lst == listing@.map_values(|kv: KeyValuePair| entry_of(kv)),
            out@ == records_bytes(lst.subrange(0, k as int)),
            forall|t: int| 0 <= t < k ==> key_fits(entry_of(#[trigger] listing@[t]).0),
        decreases listing@.len() - k,
    {
        proof {
            assert(entry_of(listing@[k as int]) == lst[k as int]);
        }
        let kv = &listing[k];
        let klen = kv.key.as_str().unicode_len();
        let kascii = kv.key.as_str().is_ascii();
        proof {
            lemma_ascii_forms(kv.key@);
        }
        if klen > 16 || !kascii {
            proof {
                assert(!key_fits(entry_of(listing@[k as int]).0));
            }
            return Err(StoreError::ValueTooWide);
        }
        let pad: usize = 16 - klen;
        let mut z: usize = 0;
        let ghost outpre = out@;
        while z < pad
            invariant
                z <= pad,
                out@ == outpre + zero_digits(z as int),
            decreases pad - z,
        {
            out.push(48u8);
            proof {
                assert(out@ =~= outpre + zero_digits(z + 1));
            }
            z = z + 1;
        }
        let kb = kv.key.as_str().as_bytes_vec();
        proof {
            vstd::utf8::is_ascii_chars_encode_utf8(kv.key@);
            assert(kb@ =~= kv.key@.map_values(|c: char| c as u8));
        }
        crate::store::append(&mut out, &kb);
        push_hex_fixed(kv.value as u64, 9, &mut out);
        proof {
            let pre = lst.subrange(0, k as int);
            let ext = lst.subrange(0, k + 1);
            assert(ext.drop_last() =~= pre);
            assert(ext.last() == lst[k as int]);
            assert(lst[k as int].0 == kv.key@ && lst[k as int].1 == kv.value as int);
            assert(key_field(kv.key@) =~= zero_digits(pad as int) + kb@);
            assert(hex_fixed(kv.value as u64 as int, 9) == hex_fixed(lst[k as int].1, 9));
            assert(out@ =~= records_bytes(ext));
        }
        k = k + 1;
    }
    proof {
        assert(lst.subrange(0, lst.len() as int) =~= lst);
    }
    Ok(out)
}

/// Builds the serialized index for one column: scans all rows, decodes the
/// column's value of each, inserts every (value, slot) pair into a binary
/// search tree in slot order, pads the tree to an odd node count with one
/// empty-keyed placeholder, and emits one fixed-width record per node in
/// level order.
pub fn create_index(data: &Vec<u8>, td: &TableData, column: &ColumnDefinition) -> (r: Result<
    Vec<u8>,
    StoreError,
>)
    requires
        crate::utils::table_data_wf(*td),
        (column.column_position as int) < td.schema@.len(),
    ensures
        r is Ok <==> index_ok(data@, td.schema@, column.column_position as int),
        r matches Ok(bytes) ==> bytes@ == index_bytes(
            data@,
            td.schema@,
            column.column_position as int,
        ),
        r matches Err(e) ==> e == index_err(data@, td.schema@),
{
    let ghost pos = column.column_position as int;
    let ghost cols = td.schema@;
    let ghost vals = column_values(data@, cols, pos);
    let w = td.row_size;
    proof {
        crate::domain::lemma_row_width_min(cols);
    }
    let dlen = data.len();
    let n = dlen / w;
    proof {
        assert(vals.len() == n);
    }
    let cpos = column.column_position as usize;
    let mut keys: Vec<String> = Vec::new();
    let mut i: usize = 0;
    proof {
        assert(keys.deep_view() =~~= vals.subrange(0, 0));
    }
    while i < n
        invariant
            i <= n,
            crate::utils::table_data_wf(*td),
            cols == td.schema@,
            pos == column.column_position as int,
            cpos as int == pos,
            0 <= pos && pos < cols.len(),
            w == td.row_size,
            w >= 1,
            dlen == data@.len(),
            n == data@.len() as int / w as int,
            vals == column_values(data@, cols, pos),
            vals.len() == n,
            keys.deep_view() == vals.subrange(0, i as int),
            keys@.len() == i,
            forall|t: int|
                0 <= t < i ==> crate::codec::row_ok(#[trigger] chunks(data@, w as int)[t], cols),
        decreases n - i,
    {
        let row = match read_slot(data, i, w) {
            Ok(b) => b,
            Err(e) => {
                proof {
                    assert((i as int + 1) * w <= data@.len()) by (nonlinear_arith)
                        requires
                            w >= 1,
                            0 <= i as int && (i as int) < n,
                            n == data@.len() as int / w as int,
                            data@.len() >= 0,
                    ;
                    assert(false);
                }
                return Err(StoreError::IOFailure);
            },
        };
        proof {
            assert(i as int * w >= 0 && i as int * w + w == (i as int + 1) * w)
                by (nonlinear_arith)
                requires
                    i as int >= 0,
                    w >= 1,
            ;
            assert(row@.len() == w);
            assert(row@ == chunks(data@, w as int)[i as int]);
        }
        match crate::codec::read_row(&row, &td.schema) {
            Err(e) => {
                proof {
                    assert(!crate::codec::row_ok(chunks(data@, w as int)[i as int], cols));
                    assert(!rows_all_ok(data@, cols));
                }
                return Err(StoreError::MalformedField);
            },
            Ok(rowvals) => {
                proof {
                    assert(rowvals.deep_view().len() == rowvals@.len());
                    assert(rowvals@.len() == cols.len());
                }
                let key = rowvals[cpos].clone();
                proof {
                    assert(rowvals.deep_view()[pos] == rowvals@[pos]@);
                    assert(rowvals.deep_view()[pos] == row_values(row@, cols)[pos]);
                    assert(key@ == vals[i as int]);
                }
                keys.push(key);
                proof {
                    assert(keys.deep_view() =~~= vals.subrange(0, i + 1));
                }
            },
        }
        i = i + 1;
    }
    proof {
        assert(vals.subrange(0, n as int) =~= vals);
        assert(rows_all_ok(data@, cols)) by {
            assert(chunks(data@, crate::codec::row_width(cols)).len() == n);
        }
        lemma_pow16_values();
    }
    if (n as u64) > 68719476736u64 {
        return Err(StoreError::ValueTooWide);
    }
    let mut tree = bst_new();
    let mut i: usize = 0;
    proof {
        assert(vals.subrange(0, 0) =~= Seq::<Seq<char>>::empty());
        assert(bst_map(tree) == built_map(vals.subrange(0, 0)));
    }
    while i < keys.len()
        invariant
            i <= keys@.len(),
            keys@.len() == vals.len(),
            keys.deep_view() == vals,
            bst_map(tree) == built_map(vals.subrange(0, i as int)),
        decreases keys@.len() - i,
    {
        let kv = KeyValuePair::new(keys[i].clone(), i);
        proof {
            assert(keys.deep_view()[i as int] == keys@[i as int]@);
            assert(entry_of(kv) == (vals[i as int], i as int));
        }
        bst_insert(&mut tree, kv);
        proof {
            let pre = vals.subrange(0, i as int);
            let ext = vals.subrange(0, i + 1);
            assert(ext.drop_last() =~= pre);
            assert(ext.last() == vals[i as int]);
            assert(ext.len() - 1 == i as int);
            assert(bst_map(tree) == built_map(ext));
        }
        i = i + 1;
    }
    proof {
        assert(vals.subrange(0, vals.len() as int) =~= vals);
        assert(bst_map(tree) == built_map(vals));
        lemma_built_map_wf(vals);
    }
    let sz = bst_size(&tree);
    if sz % 2 == 0 {
        bst_insert(&mut tree, KeyValuePair::new(String::new(), 0));
        proof {
            assert(bst_map(tree) == padded_map(vals));
        }
    } else {
        proof {
            assert(bst_map(tree) == padded_map(vals));
        }
    }
    let ghost lst = map_listing(padded_map(vals));
    let listing = bst_level_order(&tree);
    proof {
        assert(listing@.map_values(|kv: KeyValuePair| entry_of(kv)) == lst);
        assert(listing@.len() == lst.len());
    }
    match serialize_records(&listing) {
        Ok(out) => {
            proof {
                lemma_padded_map_wf(vals);
                crate::index_util::lemma_map_listing_entries(padded_map(vals));
                assert forall|i0: int| 0 <= i0 < vals.len() implies key_fits(
                    #[trigger] vals[i0],
                ) by {
                    let m = padded_map(vals);
                    let p = choose|p: int| #[trigger] m.dom().contains(p) && m[p] == (vals[i0], i0);
                    let j = choose|j: int|
                        0 <= j < map_listing(m).len() && #[trigger] map_listing(m)[j] == m[p];
                    assert(entry_of(listing@[j]) == lst[j]);
                    assert(key_fits(lst[j].0));
                }
                assert(index_ok(data@, cols, pos));
            }
            Ok(out)
        },
        Err(e) => {
            proof {
                lemma_padded_map_wf(vals);
                crate::index_util::lemma_map_listing_entries(padded_map(vals));
                let t = choose|t: int|
                    0 <= t < listing@.len() && !key_fits(entry_of(#[trigger] listing@[t]).0);
                assert(entry_of(listing@[t]) == lst[t]);
                let m = padded_map(vals);
                let p = choose|p: int| m.dom().contains(p) && m[p] == lst[t];
                assert(m.dom().contains(p) && m[p] == lst[t]);
                if m[p] == (Seq::<char>::empty(), 0int) {
                    assert(key_fits(Seq::<char>::empty()));
                    assert(false);
                } else {
                    let i0 = choose|i0: int| 0 <= i0 < vals.len() && m[p] == (vals[i0], i0);
                    assert(!key_fits(vals[i0]));
                }
                assert(!index_ok(data@, cols, pos));
            }
            Err(e)
        },
    }
}

/// Rebuilds the serialized index of every column currently marked as
/// indexed, in ordinal order; unmarked columns get no index. Any failure
/// aborts the whole rebuild.
pub fn update_index(data: &Vec<u8>, td: &TableData, indexed: &Vec<bool>) -> (r: Result<
    Vec<Option<Vec<u8>>>,
    StoreError,
>)
    requires
        crate::utils::table_data_wf(*td),
        indexed@.len() == td.schema@.len(),
    ensures
        r is Ok <==> (forall|j: int|
            0 <= j < indexed@.len() ==> (indexed@[j] ==> index_ok(data@, td.schema@, j))),
        r matches Ok(out) ==> {
            &&& out@.len() == indexed@.len()
            &&& forall|j: int|
                0 <= j < indexed@.len() ==> if indexed@[j] {
                    (#[trigger] out@[j]) matches Some(b) && b@ == index_bytes(data@, td.schema@, j)
                } else {
                    out@[j] is None
                }
        },
        r matches Err(e) ==> e == index_err(data@, td.schema@) && (exists|j: int|
            0 <= j < indexed@.len() && indexed@[j] && !index_ok(data@, td.schema@, j)),
{
    let mut out: Vec<Option<Vec<u8>>> = Vec::new();
    let mut j: usize = 0;
    while j < indexed.len()
        invariant
            j <= indexed@.len(),
            indexed@.len() == td.schema@.len(),
            crate::utils::table_data_wf(*td),
            out@.len() == j,
            forall|t: int|
                0 <= t < j ==> if indexed@[t] {
                    (#[trigger] out@[t]) matches Some(b) && b@ == index_bytes(data@, td.schema@, t)
                        && index_ok(data@, td.schema@, t)
                } else {
                    out@[t] is None
                },
        decreases indexed@.len() - j,
    {
        if indexed[j] {
            proof {
                assert(td.schema@[j as int].column_position == j);
            }
            match create_index(data, td, &td.schema[j]) {
                Ok(b) => {
                    out.push(Some(b));
                },
                Err(e) => {
                    proof {
                        assert(indexed@[j as int] && !index_ok(data@, td.schema@, j as int));
                    }
                    return Err(e);
                },
            }
        } else {
            out.push(None);
        }
        j = j + 1;
    }
    proof {
        assert forall|t: int|
            0 <= t < indexed@.len() implies (indexed@[t] ==> index_ok(data@, td.schema@, t)) by {
            let witness = out@[t];
        }
    }
    Ok(out)
}

} // verus!

verus! {

/// The key bytes with the leading zero-digit padding removed.
pub open spec fn strip_zeros(s: Seq<u8>) -> Seq<u8>
    decreases s.len(),
{
    if s.len() > 0 && s[0] == 48 {
        strip_zeros(s.drop_first())
    } else {
        s
    }
}

/// Stripping the zero digits keeps the suffix from the first other byte on.
pub proof fn lemma_strip_zeros_at(s: Seq<u8>, k: int)
    requires
        0 <= k <= s.len(),
        forall|t: int| 0 <= t < k ==> s[t] == 48,
        k == s.len() || s[k] != 48,
    ensures
        strip_zeros(s) == s.subrange(k, s.len() as int),
    decreases k,
{
    if k == 0 {
        if s.len() > 0 && s[0] == 48 {
            assert(false);
        }
        assert(s.subrange(0, s.len() as int) =~= s);
    } else {
        assert(s[0] == 48);
        let d = s.drop_first();
        assert(forall|t: int| 0 <= t < k - 1 ==> d[t] == #[trigger] s[t + 1]);
        lemma_strip_zeros_at(d, k - 1);
        assert(d.subrange(k - 1, d.len() as int) =~= s.subrange(k, s.len() as int));
    }
}

/// How the searcher navigates the serialized index from position `p`: it
/// reads the record at `p`, parses its slot digits, strips the key's
/// padding, and either returns the slot on a key match, descends to
/// `2p+1` when the sought key sorts before the node's, or to `2p+2`
/// otherwise. A position beyond the file is a failed lookup; bad slot
/// digits are a malformed field.
pub open spec fn index_walk(bytes: Seq<u8>, target: Seq<u8>, p: int) -> Result<int, StoreError>
    decreases vstd::math::max(0, bytes.len() - 25 * p),
{
    if p < 0 || 25 * p + 25 > bytes.len() {
        Err(StoreError::IndexLookupFailed)
    } else if !all_hex_digits(bytes.subrange(25 * p + 16, 25 * p + 25)) {
        Err(StoreError::MalformedField)
    } else {
        let key = strip_zeros(bytes.subrange(25 * p, 25 * p + 16));
        if key == target {
            Ok(hex_nat_of(bytes.subrange(25 * p + 16, 25 * p + 25)))
        } else if lex_lt_bytes(target, key) {
            index_walk(bytes, target, 2 * p + 1)
        } else {
            index_walk(bytes, target, 2 * p + 2)
        }
    }
}

/// Navigates the serialized index file for the row slot of one value,
/// without deserializing the tree: exactly the walk `index_walk` takes
/// from the root record.
#[verifier::loop_isolation(false)]
pub fn search_with_index(index_data: &Vec<u8>, value: &str) -> (r: Result<usize, StoreError>)
    ensures
        ({
            let wr = index_walk(index_data@, vstd::utf8::encode_utf8(value@), 0);
            match wr {
                Ok(slot) => if slot <= usize::MAX {
                    r matches Ok(s) && s as int == slot
                } else {
                    r == Err::<usize, StoreError>(StoreError::SlotOutOfRange)
                },
                Err(e) => r == Err::<usize, StoreError>(e),
            }
        }),
{
    let tb = value.as_bytes_vec();
    let dlen = index_data.len();
    let mut p: usize = 0;
    loop
        invariant
            tb@ == vstd::utf8::encode_utf8(value@),
            index_walk(index_data@, tb@, p as int) == index_walk(index_data@, tb@, 0),
        decreases vstd::math::max(0, dlen - 25 * (p as int)),
    {
        let n = dlen / 25;
        proof {
            assert(((p as int) < n) == (25 * (p as int) + 25 <= dlen)) by (nonlinear_arith)
                requires
                    n == dlen as int / 25,
                    dlen >= 0,
                    p as int >= 0,
            ;
        }
        if p >= n {
            return Err(StoreError::IndexLookupFailed);
        }
        proof {
            assert(25 * (p as int) + 25 <= dlen);
        }
        let start = p * 25;
        let ghost slotpart = index_data@.subrange(25 * (p as int) + 16, 25 * (p as int) + 25);
        let slot = match hex_value(index_data.as_slice(), start + 16, start + 25) {
            None => {
                proof {
                    assert(index_data@.subrange(start + 16, start + 25) == slotpart);
                }
                return Err(StoreError::MalformedField);
            },
            Some(v) => v,
        };
        proof {
            assert(index_data@.subrange(start + 16, start + 25) == slotpart);
            assert(all_hex_digits(slotpart));
            assert(slot as int == hex_nat_of(slotpart));
        }
        let ghost keypart = index_data@.subrange(25 * (p as int), 25 * (p as int) + 16);
        let mut k: usize = 0;
        while k < 16 && index_data[start + k] == 48u8
            invariant
                k <= 16,
                forall|t: int| 0 <= t < k ==> #[trigger] index_data@[start + t] == 48,
            decreases 16 - k,
        {
            k = k + 1;
        }
        let mut stripped: Vec<u8> = Vec::new();
        let mut t: usize = k;
        proof {
            assert(stripped@ =~= index_data@.subrange(start + k, start + k));
        }
        while t < 16
            invariant
                k <= t <= 16,
                stripped@ == index_data@.subrange(start + k, start + t),
            decreases 16 - t,
        {
            stripped.push(index_data[start + t]);
            proof {
                assert(stripped@ =~= index_data@.subrange(start + k, start + t + 1));
            }
            t = t + 1;
        }
        proof {
            assert(forall|t0: int| 0 <= t0 < 16 ==> keypart[t0] == index_data@[start + t0]);
            lemma_strip_zeros_at(keypart, k as int);
            assert(stripped@ =~= keypart.subrange(k as int, 16));
            assert(stripped@ == strip_zeros(keypart));
        }
        let c = bytes_cmp(stripped.as_slice(), tb.as_slice());
        if c == 0i8 {
            proof {
                assert(index_walk(index_data@, tb@, p as int) == Ok::<int, StoreError>(
                    slot as int,
                ));
            }
            if (slot as u64) > (usize::MAX as u64) {
                return Err(StoreError::SlotOutOfRange);
            }
            return Ok(slot as usize);
        } else if c < 0i8 {
            proof {
                crate::text::lemma_lex_bytes_total(stripped@, tb@);
                assert(!lex_lt_bytes(tb@, stripped@));
                assert(index_walk(index_data@, tb@, p as int) == index_walk(
                    index_data@,
                    tb@,
                    2 * (p as int) + 2,
                ));
            }
            p = 2 * p + 2;
        } else {
            proof {
                crate::text::lemma_lex_bytes_total(stripped@, tb@);
                assert(lex_lt_bytes(tb@, stripped@));
                assert(index_walk(index_data@, tb@, p as int) == index_walk(
                    index_data@,
                    tb@,
                    2 * (p as int) + 1,
                ));
            }
            p = 2 * p + 1;
        }
    }
}

/// One deserialized index record.
#[derive(Debug)]
pub struct NodeData {
    pub value: String,
    pub position: usize,
}

/// Reads one serialized index node: the key with its zero-digit padding
/// stripped, and the row slot parsed from the trailing nine base-16
/// digits.
pub fn read_node_from_bytes(bytes: &[u8], column_size: usize) -> (r: Result<NodeData, StoreError>)
    requires
        column_size + 9 <= bytes@.len(),
    ensures
        r is Ok <==> ({
            &&& all_hex_digits(bytes@.subrange(column_size as int, column_size + 9))
            &&& vstd::utf8::valid_utf8(strip_zeros(bytes@.subrange(0, column_size as int)))
            &&& hex_nat_of(bytes@.subrange(column_size as int, column_size + 9)) <= usize::MAX
        }),
        r matches Ok(nd) ==> {
            &&& vstd::utf8::encode_utf8(nd.value@) == strip_zeros(
                bytes@.subrange(0, column_size as int),
            )
            &&& nd.position as int == hex_nat_of(bytes@.subrange(column_size as int, column_size + 9))
        },
        r matches Err(e) ==> e == ({
            if all_hex_digits(bytes@.subrange(column_size as int, column_size + 9))
                && vstd::utf8::valid_utf8(strip_zeros(bytes@.subrange(0, column_size as int))) {
                StoreError::SlotOutOfRange
            } else {
                StoreError::MalformedField
            }
        }),
{
    let blen = bytes.len();
    proof {
        assert(blen == bytes@.len());
    }
    let ghost slotpart = bytes@.subrange(column_size as int, column_size + 9);
    let ghost keypart = bytes@.subrange(0, column_size as int);
    let slot = match hex_value(bytes, column_size, column_size + 9) {
        None => {
            return Err(StoreError::MalformedField);
        },
        Some(v) => v,
    };
    let mut k: usize = 0;
    while k < column_size && bytes[k] == 48u8
        invariant
            k <= column_size,
            column_size + 9 <= bytes@.len(),
            forall|t: int| 0 <= t < k ==> bytes@[t] == 48,
        decreases column_size - k,
    {
        k = k + 1;
    }
    let mut stripped: Vec<u8> = Vec::new();
    let mut t: usize = k;
    proof {
        assert(stripped@ =~= bytes@.subrange(k as int, k as int));
    }
    while t < column_size
        invariant
            k <= t <= column_size,
            column_size + 9 <= bytes@.len(),
            stripped@ == bytes@.subrange(k as int, t as int),
        decreases column_size - t,
    {
        stripped.push(bytes[t]);
        proof {
            assert(stripped@ =~= bytes@.subrange(k as int, t + 1));
        }
        t = t + 1;
    }
    proof {
        assert(forall|t0: int| 0 <= t0 < column_size ==> keypart[t0] == bytes@[t0]);
        lemma_strip_zeros_at(keypart, k as int);
        assert(stripped@ =~= keypart.subrange(k as int, column_size as int));
        assert(stripped@ == strip_zeros(keypart));
    }
    let value = match crate::codec::string_from_utf8(stripped) {
        None => {
            return Err(StoreError::MalformedField);
        },
        Some(s) => s,
    };
    if (slot as u64) > (usize::MAX as u64) {
        return Err(StoreError::SlotOutOfRange);
    }
    Ok(NodeData { value, position: slot as usize })
}

} // verus!

verus! {

/// How a lookup walks the position map: compare the sought key with the
/// entry at `p` and descend exactly as the searcher does over the file.
pub open spec fn map_walk(m: Map<int, (Seq<char>, int)>, k: Seq<char>, p: int) -> Option<int>
    decreases m.dom().len() when m.dom().finite()
{
    if !m.dom().contains(p) {
        None
    } else if m[p].0 == k {
        Some(m[p].1)
    } else if crate::text::lex_lt(k, m[p].0) {
        map_walk(m.remove(p), k, 2 * p + 1)
    } else {
        map_walk(m.remove(p), k, 2 * p + 2)
    }
}

/// Removing an entry below the walk's span leaves the walk unchanged.
proof fn lemma_map_walk_remove(m: Map<int, (Seq<char>, int)>, k: Seq<char>, q0: int, p: int)
    requires
        m.dom().finite(),
        q0 < p,
        p >= 0,
    ensures
        map_walk(m.remove(q0), k, p) == map_walk(m, k, p),
    decreases m.dom().len(),
{
    let mr = m.remove(q0);
    if !m.dom().contains(p) {
        assert(!mr.dom().contains(p));
    } else if m[p].0 == k {
        assert(mr.dom().contains(p) && mr[p] == m[p]);
    } else {
        assert(mr.dom().contains(p) && mr[p] == m[p]);
        assert(mr.remove(p) =~= m.remove(p).remove(q0));
        if crate::text::lex_lt(k, m[p].0) {
            lemma_map_walk_remove(m.remove(p), k, q0, 2 * p + 1);
        } else {
            lemma_map_walk_remove(m.remove(p), k, q0, 2 * p + 2);
        }
    }
}

/// Inserting at a position the map does not hold cannot disturb a walk
/// that succeeds.
proof fn lemma_map_walk_insert(
    m: Map<int, (Seq<char>, int)>,
    k: Seq<char>,
    p: int,
    q: int,
    x: (Seq<char>, int),
)
    requires
        m.dom().finite(),
        map_walk(m, k, p) is Some,
        !m.dom().contains(q),
    ensures
        map_walk(m.insert(q, x), k, p) == map_walk(m, k, p),
    decreases m.dom().len(),
{
    let mi = m.insert(q, x);
    assert(m.dom().contains(p));
    assert(p != q);
    assert(mi.dom().contains(p) && mi[p] == m[p]);
    if m[p].0 == k {
    } else {
        assert(mi.remove(p) =~= m.remove(p).insert(q, x));
        if crate::text::lex_lt(k, m[p].0) {
            lemma_map_walk_insert(m.remove(p), k, 2 * p + 1, q, x);
        } else {
            lemma_map_walk_insert(m.remove(p), k, 2 * p + 2, q, x);
        }
    }
}

/// A walk for the key of a freshly inserted entry retraces the insertion
/// walk and finds the new entry, provided no older entry shares its key.
proof fn lemma_map_walk_new(m: Map<int, (Seq<char>, int)>, x: (Seq<char>, int), p: int)
    requires
        m.dom().finite(),
        p >= 0,
        forall|q: int| #[trigger] m.dom().contains(q) ==> m[q].0 != x.0,
    ensures
        map_walk(
            m.insert(crate::index_util::bst_insert_pos(m, x, p), x),
            x.0,
            p,
        ) == Some(x.1),
    decreases m.dom().len(),
{
    let q = crate::index_util::bst_insert_pos(m, x, p);
    crate::index_util::lemma_insert_pos_fresh(m, x, p);
    let mi = m.insert(q, x);
    if !m.dom().contains(p) {
        assert(q == p);
        assert(mi.dom().contains(p) && mi[p] == x);
    } else {
        assert(p != q);
        assert(mi.dom().contains(p) && mi[p] == m[p]);
        assert(m[p].0 != x.0);
        assert(mi.remove(p) =~= m.remove(p).insert(q, x));
        if crate::index_util::pair_lt(x, m[p]) {
            assert(crate::text::lex_lt(x.0, m[p].0));
            assert(q == crate::index_util::bst_insert_pos(m.remove(p), x, 2 * p + 1));
            lemma_map_walk_new(m.remove(p), x, 2 * p + 1);
        } else {
            assert(!crate::text::lex_lt(x.0, m[p].0));
            assert(q == crate::index_util::bst_insert_pos(m.remove(p), x, 2 * p + 2));
            lemma_map_walk_new(m.remove(p), x, 2 * p + 2);
        }
    }
}

/// No two values are equal.
pub open spec fn distinct_keys(vals: Seq<Seq<char>>) -> bool {
    forall|i: int, j: int| 0 <= i < j < vals.len() ==> #[trigger] vals[i] != #[trigger] vals[j]
}

/// In the tree built from distinct values in slot order, the walk from the
/// root finds every value's slot.
proof fn lemma_built_map_walk(vals: Seq<Seq<char>>, i: int)
    requires
        distinct_keys(vals),
        0 <= i < vals.len(),
    ensures
        map_walk(built_map(vals), vals[i], 0) == Some(i),
    decreases vals.len(),
{
    let dl = vals.drop_last();
    let pre = built_map(dl);
    lemma_built_map_wf(dl);
    let x = (vals.last(), vals.len() - 1);
    let q = crate::index_util::bst_insert_pos(pre, x, 0);
    assert(built_map(vals) == pre.insert(q, x));
    assert(distinct_keys(dl)) by {
        assert(forall|t: int| 0 <= t < dl.len() ==> dl[t] == #[trigger] vals[t]);
    }
    if i == vals.len() - 1 {
        assert forall|q0: int| #[trigger] pre.dom().contains(q0) implies pre[q0].0 != x.0 by {
            let t = choose|t: int| 0 <= t < dl.len() && pre[q0] == (dl[t], t);
            assert(dl[t] == vals[t]);
            assert(vals[t] != vals[vals.len() - 1]);
        }
        lemma_map_walk_new(pre, x, 0);
        assert(vals[i] == x.0 && x.1 == i);
    } else {
        assert(dl[i] == vals[i]);
        lemma_built_map_walk(dl, i);
        crate::index_util::lemma_insert_pos_fresh(pre, x, 0);
        lemma_map_walk_insert(pre, vals[i], 0, q, x);
    }
}

/// The padding entry does not disturb lookups of the real values.
proof fn lemma_padded_map_walk(vals: Seq<Seq<char>>, i: int)
    requires
        distinct_keys(vals),
        0 <= i < vals.len(),
    ensures
        map_walk(padded_map(vals), vals[i], 0) == Some(i),
{
    lemma_built_map_walk(vals, i);
    lemma_built_map_wf(vals);
    let m = built_map(vals);
    if m.len() % 2 == 0 {
        let x = (Seq::<char>::empty(), 0int);
        let q = crate::index_util::bst_insert_pos(m, x, 0);
        crate::index_util::lemma_insert_pos_fresh(m, x, 0);
        lemma_map_walk_insert(m, vals[i], 0, q, x);
    }
}

} // verus!

verus! {

/// Concatenated fixed-width records can be read back record by record.
proof fn lemma_records_bytes_at(es: Seq<(Seq<char>, int)>, j: int)
    requires
        forall|t: int| 0 <= t < es.len() ==> (#[trigger] es[t]).0.len() <= 16,
        0 <= j < es.len(),
    ensures
        records_bytes(es).len() == 25 * es.len(),
        records_bytes(es).subrange(25 * j, 25 * j + 25) == record_of(es[j]),
    decreases es.len(),
{
    lemma_records_bytes_len(es);
    let dl = es.drop_last();
    lemma_records_bytes_len(dl);
    crate::numerals::lemma_hex_fixed_wf(es.last().1, 9);
    assert(record_of(es.last()).len() == 25);
    if j == es.len() - 1 {
        assert(records_bytes(es).subrange(25 * j, 25 * j + 25) =~= record_of(es[j]));
    } else {
        assert(forall|t: int| 0 <= t < dl.len() ==> dl[t] == #[trigger] es[t]);
        lemma_records_bytes_at(dl, j);
        assert(records_bytes(es).subrange(25 * j, 25 * j + 25) =~= records_bytes(dl).subrange(
            25 * j,
            25 * j + 25,
        ));
    }
}

proof fn lemma_records_bytes_len(es: Seq<(Seq<char>, int)>)
    requires
        forall|t: int| 0 <= t < es.len() ==> (#[trigger] es[t]).0.len() <= 16,
    ensures
        records_bytes(es).len() == 25 * es.len(),
    decreases es.len(),
{
    if es.len() > 0 {
        let dl = es.drop_last();
        assert(forall|t: int| 0 <= t < dl.len() ==> dl[t] == #[trigger] es[t]);
        lemma_records_bytes_len(dl);
        crate::numerals::lemma_hex_fixed_wf(es.last().1, 9);
        assert(es[es.len() - 1] == es.last());
        assert(record_of(es.last()).len() == 25);
    }
}

/// An ASCII character equal to the zero digit as a byte is the zero digit.
proof fn lemma_ascii_char_zero(c: char)
    requires
        ascii_char(c),
        c as u8 == 48,
    ensures
        c == '0',
{
    crate::text::lemma_ascii_char_byte(c);
    vstd::utf8::char_u32_cast(c, c as u32);
    vstd::utf8::char_u32_cast('0', '0' as u32);
}

/// Stripping a serialized key's padding gives back the key's bytes, for a
/// key that does not begin with the zero digit.
proof fn lemma_strip_key(k: Seq<char>)
    requires
        key_fits(k),
        k.len() == 0 || k[0] != '0',
    ensures
        strip_zeros(key_field(k)) == k.map_values(|c: char| c as u8),
{
    let kb = k.map_values(|c: char| c as u8);
    let f = key_field(k);
    let pad = 16 - k.len();
    assert(f.len() == 16);
    assert(forall|t: int| 0 <= t < pad ==> f[t] == 48);
    if k.len() > 0 {
        assert(f[pad] == kb[0]);
        assert(kb[0] == k[0] as u8);
        if k[0] as u8 == 48 {
            assert(ascii_char(k[0]));
            lemma_ascii_char_zero(k[0]);
            assert(false);
        }
        lemma_strip_zeros_at(f, pad);
        assert(f.subrange(pad as int, 16) =~= kb);
    } else {
        lemma_strip_zeros_at(f, 16);
        assert(f.subrange(16, 16) =~= kb);
    }
}

/// On ASCII sequences, byte-for-byte equality is character equality.
proof fn lemma_ascii_map_inj(a: Seq<char>, b: Seq<char>)
    requires
        ascii_chars(a),
        ascii_chars(b),
    ensures
        (a.map_values(|c: char| c as u8) == b.map_values(|c: char| c as u8)) == (a == b),
{
    let ab = a.map_values(|c: char| c as u8);
    let bb = b.map_values(|c: char| c as u8);
    if ab == bb {
        assert(a =~= b) by {
            assert(ab.len() == a.len());
            assert(bb.len() == b.len());
            assert(a.len() == b.len());
            assert forall|t: int| 0 <= t < a.len() implies a[t] == b[t] by {
                assert(ab[t] == a[t] as u8);
                assert(bb[t] == b[t] as u8);
                assert(ascii_char(a[t]) && ascii_char(b[t]));
                crate::text::lemma_ascii_char_byte(a[t]);
                crate::text::lemma_ascii_char_byte(b[t]);
                assert((a[t] as u32) == (b[t] as u32));
                vstd::utf8::char_u32_cast(a[t], a[t] as u32);
                vstd::utf8::char_u32_cast(b[t], b[t] as u32);
                assert((a[t] as u32) as char == a[t]);
                assert((b[t] as u32) as char == b[t]);
            }
        }
    }
    if a == b {
        assert(ab =~= bb);
    }
}

/// Within the concatenated records, record `p` splits into its key field
/// and its slot digits.
proof fn lemma_record_parts(lst: Seq<(Seq<char>, int)>, p: int)
    requires
        forall|t: int| 0 <= t < lst.len() ==> (#[trigger] lst[t]).0.len() <= 16,
        0 <= p < lst.len(),
    ensures
        records_bytes(lst).len() == 25 * lst.len(),
        records_bytes(lst).subrange(25 * p + 16, 25 * p + 25) == hex_fixed(lst[p].1, 9),
        records_bytes(lst).subrange(25 * p, 25 * p + 16) == key_field(lst[p].0),
{
    lemma_records_bytes_at(lst, p);
    let bytes = records_bytes(lst);
    let e = lst[p];
    crate::numerals::lemma_hex_fixed_wf(e.1, 9);
    let rec = bytes.subrange(25 * p, 25 * p + 25);
    assert(rec == record_of(e));
    assert(rec.len() == 25);
    assert(key_field(e.0).len() == 16);
    assert(bytes.subrange(25 * p + 16, 25 * p + 25) =~= hex_fixed(e.1, 9)) by {
        assert forall|t: int|
            0 <= t < 9 implies bytes.subrange(25 * p + 16, 25 * p + 25)[t] == hex_fixed(
            e.1,
            9,
        )[t] by {
            assert(bytes.subrange(25 * p + 16, 25 * p + 25)[t] == bytes[25 * p + 16 + t]);
            assert(rec[16 + t] == bytes[25 * p + 16 + t]);
            assert(rec[16 + t] == record_of(e)[16 + t]);
            assert(record_of(e)[16 + t] == hex_fixed(e.1, 9)[t]);
        }
    }
    assert(bytes.subrange(25 * p, 25 * p + 16) =~= key_field(e.0)) by {
        assert forall|t: int|
            0 <= t < 16 implies bytes.subrange(25 * p, 25 * p + 16)[t] == key_field(e.0)[t] by {
            assert(bytes.subrange(25 * p, 25 * p + 16)[t] == bytes[25 * p + t]);
            assert(rec[t] == bytes[25 * p + t]);
            assert(rec[t] == record_of(e)[t]);
            assert(record_of(e)[t] == key_field(e.0)[t]);
        }
    }
}

/// On a complete index — positions exactly `0 .. n` — the searcher's walk
/// over the serialized records agrees with the walk over the position map.
#[verifier::rlimit(100)]
proof fn lemma_walk_bridge(m: Map<int, (Seq<char>, int)>, n: int, k: Seq<char>, p: int)
    requires
        n >= 0,
        p >= 0,
        m.dom() == vstd::set_lib::set_int_range(0, n),
        forall|q: int| #[trigger] m.dom().contains(q) ==> key_fits(m[q].0),
        forall|q: int|
            #[trigger] m.dom().contains(q) ==> (m[q].0.len() == 0 || m[q].0[0] != '0'),
        forall|q: int| #[trigger] m.dom().contains(q) ==> 0 <= m[q].1 < pow16(9),
        ascii_chars(k),
    ensures
        index_walk(records_bytes(map_listing(m)), k.map_values(|c: char| c as u8), p) == (
        match map_walk(m, k, p) {
            Some(s) => Ok::<int, StoreError>(s),
            None => Err::<int, StoreError>(StoreError::IndexLookupFailed),
        }),
    decreases vstd::math::max(0, n - p),
{
    vstd::set_lib::lemma_int_range(0, n);
    crate::index_util::lemma_map_listing_range(m, 0, n);
    let lst = map_listing(m);
    assert(lst.len() == n);
    assert(forall|t: int| 0 <= t < n ==> #[trigger] lst[t] == m[t]);
    assert forall|t: int| 0 <= t < lst.len() implies (#[trigger] lst[t]).0.len() <= 16 by {
        assert(m.dom().contains(t));
        assert(key_fits(m[t].0));
    }
    lemma_records_bytes_len(lst);
    let bytes = records_bytes(lst);
    let kb = k.map_values(|c: char| c as u8);
    if p >= n {
        assert(!m.dom().contains(p));
        assert(25 * p + 25 > bytes.len());
    } else {
        assert(m.dom().contains(p));
        lemma_record_parts(lst, p);
        let e = m[p];
        crate::numerals::lemma_hex_fixed_wf(e.1, 9);
        assert(all_hex_digits(hex_fixed(e.1, 9)));
        crate::numerals::lemma_hex_fixed_roundtrip(e.1, 9);
        lemma_strip_key(e.0);
        assert(strip_zeros(bytes.subrange(25 * p, 25 * p + 16)) == e.0.map_values(
            |c: char| c as u8,
        ));
        lemma_ascii_map_inj(e.0, k);
        if e.0 == k {
            assert(index_walk(bytes, kb, p) == Ok::<int, StoreError>(e.1));
        } else {
            crate::text::lemma_lex_ascii(k, e.0);
            if crate::text::lex_lt(k, e.0) {
                assert(lex_lt_bytes(kb, e.0.map_values(|c: char| c as u8)));
                lemma_map_walk_remove(m, k, p, 2 * p + 1);
                lemma_walk_bridge(m, n, k, 2 * p + 1);
            } else {
                assert(!lex_lt_bytes(kb, e.0.map_values(|c: char| c as u8)));
                lemma_map_walk_remove(m, k, p, 2 * p + 2);
                lemma_walk_bridge(m, n, k, 2 * p + 2);
            }
        }
    }
}

/// Index correctness on a complete tree: when a column's distinct decoded
/// values, inserted in ascending slot order, happen to form a complete
/// binary search tree — the padded position map occupies exactly the
/// positions `0` up to its size — the searcher's walk over the serialized
/// index returns the slot of the row whose value was sought, for every
/// value present.
///
/// The values must fit the record's key field (at most sixteen ASCII
/// characters), must not begin with the zero digit (which the fixed-width
/// padding would swallow), and there must be few enough rows for nine
/// base-16 slot digits.
pub proof fn lemma_index_search_complete(vals: Seq<Seq<char>>, i: int)
    requires
        0 <= i < vals.len(),
        distinct_keys(vals),
        forall|j: int| 0 <= j < vals.len() ==> key_fits(#[trigger] vals[j]),
        forall|j: int|
            0 <= j < vals.len() ==> (#[trigger] vals[j]).len() > 0 && vals[j][0] != '0',
        vals.len() <= pow16(9),
        padded_map(vals).dom() == vstd::set_lib::set_int_range(
            0,
            padded_map(vals).len() as int,
        ),
    ensures
        index_walk(
            records_bytes(map_listing(padded_map(vals))),
            vals[i].map_values(|c: char| c as u8),
            0,
        ) == Ok::<int, StoreError>(i),
{
    lemma_padded_map_walk(vals, i);
    lemma_padded_map_wf(vals);
    let m = padded_map(vals);
    assert forall|q: int| #[trigger] m.dom().contains(q) implies key_fits(m[q].0) && (m[q].0.len()
        == 0 || m[q].0[0] != '0') && 0 <= m[q].1 < pow16(9) by {
        if m[q] == (Seq::<char>::empty(), 0int) {
            crate::numerals::lemma_pow16_values();
        } else {
            let i0 = choose|i0: int| 0 <= i0 < vals.len() && m[q] == (vals[i0], i0);
            assert(key_fits(vals[i0]));
            assert(vals[i0].len() > 0 && vals[i0][0] != '0');
            crate::numerals::lemma_pow16_values();
        }
    }
    lemma_walk_bridge(m, m.len() as int, vals[i], 0);
}

} // verus!
