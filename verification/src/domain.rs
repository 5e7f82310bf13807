use vstd::prelude::*;
use vstd::string::StringExecFns;

use crate::error::StoreError;

verus! {

/// The type of a column: every column of a table is either a signed integer
/// or a text column.
#[derive(Clone, Copy, Debug, PartialEq, Eq, Structural)]
pub enum ColumnType {
    INT,
    STRING,
}

/// One column of a table: its name, its type, and its zero-based position
/// within a row.
#[derive(Debug)]
pub struct ColumnDefinition {
    pub name: String,
    pub column_type: ColumnType,
    pub column_position: u8,
}

impl Clone for ColumnDefinition {
    fn clone(&self) -> (r: Self)
        ensures
            r.name@ == self.name@,
            r.column_type == self.column_type,
            r.column_position == self.column_position,
    {
        ColumnDefinition {
            name: self.name.clone(),
            column_type: self.column_type,
            column_position: self.column_position,
        }
    }
}

/// The fixed encoded byte width of a column of the given type. The widths
/// are global constants of the store: every INT field occupies nine bytes
/// and every STRING field sixteen, whatever the table.
pub open spec fn col_width(t: ColumnType) -> int {
    match t {
        ColumnType::INT => 9,
        ColumnType::STRING => 16,
    }
}

} // verus!

verus! {

// ---------------------------------------------------------------------------
// Creating a table.
// ---------------------------------------------------------------------------

/// One line of a schema record: the column's name and its type token.
pub open spec fn col_line(c: ColumnDefinition) -> Seq<char> {
    c.name@ + seq![' '] + crate::utils::type_token(c.column_type) + seq!['\n']
}

/// The column lines of a schema record, in ordinal order.
pub open spec fn cols_text(cols: Seq<ColumnDefinition>) -> Seq<char>
    decreases cols.len(),
{
    if cols.len() == 0 {
        Seq::empty()
    } else {
        cols_text(cols.drop_last()) + col_line(cols.last())
    }
}

/// A whole schema record: the last row id, the row byte width, then one
/// line per column, each line ended by a newline.
pub open spec fn schema_text(last_row_id: int, row_size: int, cols: Seq<ColumnDefinition>) -> Seq<
    char,
> {
    crate::numerals::dec_str_of_int(last_row_id) + seq!['\n'] + crate::numerals::dec_str_of_int(
        row_size,
    ) + seq!['\n'] + cols_text(cols)
}

/// Each column of a non-empty list needs at least nine bytes.
pub proof fn lemma_row_width_min(cols: Seq<ColumnDefinition>)
    ensures
        crate::codec::row_width(cols) >= 9 * cols.len(),
    decreases cols.len(),
{
    if cols.len() > 0 {
        lemma_row_width_min(cols.drop_last());
    }
}

/// Renders the schema record for a new table: the row byte width is
/// computed from the columns, and the last row id starts unset at `-1`.
pub fn create(columns: &Vec<ColumnDefinition>) -> (r: String)
    requires
        crate::codec::row_width(columns@) <= usize::MAX,
    ensures
        r@ == schema_text(-1, crate::codec::row_width(columns@), columns@),
{
    proof {
        reveal_strlit("\n");
        reveal_strlit(" ");
    }
    let mut width: usize = 0;
    let mut j: usize = 0;
    proof {
        assert(columns@.subrange(0, 0) =~= Seq::<ColumnDefinition>::empty());
    }
    while j < columns.len()
        invariant
            j <= columns@.len(),
            crate::codec::row_width(columns@) <= usize::MAX,
            width as int == crate::codec::col_offset(columns@, j as int),
        decreases columns@.len() - j,
    {
        proof {
            crate::codec::lemma_col_offset_step(columns@, j as int);
            crate::codec::lemma_col_offset_bounds(columns@, j + 1);
        }
        width = width + crate::utils::column_size(&columns[j]);
        j = j + 1;
    }
    proof {
        assert(columns@.subrange(0, columns@.len() as int) =~= columns@);
    }
    let mut out = crate::numerals::i64_dec_string(-1);
    out.append("\n");
    let mut ws = String::new();
    crate::numerals::push_dec_u64(width as u64, &mut ws);
    out.append(ws.as_str());
    out.append("\n");
    proof {
        assert("\n"@ =~= seq!['\n']);
        assert(crate::numerals::dec_str_of_int(width as int) == crate::numerals::dec_nat_str(
            width as nat,
        ));
        assert(cols_text(columns@.subrange(0, 0)) =~= Seq::<char>::empty());
        assert(out@ =~= crate::numerals::dec_str_of_int(-1) + seq!['\n']
            + crate::numerals::dec_str_of_int(width as int) + seq!['\n'] + cols_text(
            columns@.subrange(0, 0),
        ));
    }
    let mut j: usize = 0;
    while j < columns.len()
        invariant
            j <= columns@.len(),
            width as int == crate::codec::row_width(columns@),
            out@ == crate::numerals::dec_str_of_int(-1) + seq!['\n']
                + crate::numerals::dec_str_of_int(width as int) + seq!['\n'] + cols_text(
                columns@.subrange(0, j as int),
            ),
        decreases columns@.len() - j,
    {
        proof {
            reveal_strlit(" ");
            reveal_strlit("\n");
        }
        out.append(columns[j].name.as_str());
        out.append(" ");
        let tok = crate::utils::to_string(columns[j].column_type);
        out.append(tok.as_str());
        out.append("\n");
        proof {
            assert(" "@ =~= seq![' ']);
            assert("\n"@ =~= seq!['\n']);
            let pre = columns@.subrange(0, j as int);
            let ext = columns@.subrange(0, j + 1);
            assert(ext.drop_last() =~= pre);
            assert(ext.last() == columns@[j as int]);
            assert(out@ =~= crate::numerals::dec_str_of_int(-1) + seq!['\n']
                + crate::numerals::dec_str_of_int(width as int) + seq!['\n'] + cols_text(ext));
        }
        j = j + 1;
    }
    proof {
        assert(columns@.subrange(0, columns@.len() as int) =~= columns@);
    }
    out
}

// ---------------------------------------------------------------------------
// Encoding and inserting rows.
// ---------------------------------------------------------------------------

/// A batch row's values with the row identifier prepended as the implicit
/// leading column.
pub open spec fn with_rowid(values: Seq<Seq<char>>, row_id: int) -> Seq<Seq<char>> {
    seq![crate::numerals::dec_str_of_int(row_id)] + values
}

/// Every value of the row encodes under its column.
pub open spec fn encode_row_ok(vals: Seq<Seq<char>>, cols: Seq<ColumnDefinition>) -> bool {
    vals.len() == cols.len() && forall|j: int|
        0 <= j < cols.len() ==> crate::codec::encode_ok(
            vals[j],
            (#[trigger] cols[j]).column_type,
        )
}

/// The concatenated fixed-width fields of one row.
pub open spec fn encoded_row(vals: Seq<Seq<char>>, cols: Seq<ColumnDefinition>) -> Seq<u8>
    decreases cols.len(),
{
    if cols.len() == 0 {
        Seq::empty()
    } else {
        encoded_row(vals.drop_last(), cols.drop_last()) + crate::codec::encoded_field(
            vals.last(),
            cols.last().column_type,
        )
    }
}

/// An encoded row occupies exactly the row byte width.
pub proof fn lemma_encoded_row_len(vals: Seq<Seq<char>>, cols: Seq<ColumnDefinition>)
    requires
        encode_row_ok(vals, cols),
    ensures
        encoded_row(vals, cols).len() == crate::codec::row_width(cols),
    decreases cols.len(),
{
    if cols.len() > 0 {
        assert(encode_row_ok(vals.drop_last(), cols.drop_last())) by {
            assert(forall|j: int|
                0 <= j < cols.len() - 1 ==> cols.drop_last()[j] == #[trigger] cols[j]);
            assert(forall|j: int|
                0 <= j < vals.len() - 1 ==> vals.drop_last()[j] == #[trigger] vals[j]);
        }
        lemma_encoded_row_len(vals.drop_last(), cols.drop_last());
        assert(crate::codec::encode_ok(vals.last(), cols.last().column_type)) by {
            assert(vals[vals.len() - 1] == vals.last());
        }
        crate::codec::lemma_encoded_field_len(vals.last(), cols.last().column_type);
    }
}

/// The width invariant: under a well-formed schema the declared row byte
/// width is the sum of the per-column widths, and every encoded row has
/// exactly that byte length.
pub proof fn lemma_width_invariant(td: crate::utils::TableData, vals: Seq<Seq<char>>)
    requires
        crate::utils::table_data_wf(td),
        encode_row_ok(vals, td.schema@),
    ensures
        td.row_size == crate::codec::row_width(td.schema@),
        encoded_row(vals, td.schema@).len() == td.row_size,
{
    lemma_encoded_row_len(vals, td.schema@);
}

/// The index of the first value that does not encode, or `-1`.
pub open spec fn first_bad_col(vals: Seq<Seq<char>>, cols: Seq<ColumnDefinition>) -> int
    decreases cols.len(),
{
    if cols.len() == 0 {
        -1
    } else if !crate::codec::encode_ok(vals[0], cols[0].column_type) {
        0
    } else {
        let r = first_bad_col(vals.drop_first(), cols.drop_first());
        if r < 0 {
            -1
        } else {
            r + 1
        }
    }
}

pub proof fn lemma_first_bad_col_at(vals: Seq<Seq<char>>, cols: Seq<ColumnDefinition>, i: int)
    requires
        vals.len() == cols.len(),
        0 <= i <= cols.len(),
        forall|t: int|
            0 <= t < i ==> crate::codec::encode_ok(vals[t], (#[trigger] cols[t]).column_type),
        i == cols.len() || !crate::codec::encode_ok(vals[i], cols[i].column_type),
    ensures
        first_bad_col(vals, cols) == if i == cols.len() {
            -1int
        } else {
            i
        },
    decreases i,
{
    if cols.len() == 0 {
    } else if i == 0 {
    } else {
        assert(crate::codec::encode_ok(vals[0], cols[0].column_type));
        let dv = vals.drop_first();
        let dc = cols.drop_first();
        assert(forall|t: int| 0 <= t < i - 1 ==> dv[t] == #[trigger] vals[t + 1]);
        assert(forall|t: int| 0 <= t < i - 1 ==> dc[t] == #[trigger] cols[t + 1]);
        assert(i - 1 == dc.len() || !crate::codec::encode_ok(dv[i - 1], dc[i - 1].column_type));
        lemma_first_bad_col_at(dv, dc, i - 1);
    }
}

/// Encodes one row: the given row identifier becomes the leading value,
/// then each value is encoded under its column in ordinal order.
pub fn insert(columns: &Vec<ColumnDefinition>, values: &Vec<String>, row_id: u32) -> (r: Result<
    Vec<u8>,
    StoreError,
>)
    requires
        values@.len() + 1 == columns@.len(),
    ensures
        r is Ok <==> encode_row_ok(with_rowid(values.deep_view(), row_id as int), columns@),
        r matches Ok(b) ==> b@ == encoded_row(
            with_rowid(values.deep_view(), row_id as int),
            columns@,
        ),
        r matches Ok(b) ==> b@.len() == crate::codec::row_width(columns@),
        r matches Err(e) ==> {
            let vals = with_rowid(values.deep_view(), row_id as int);
            let j = first_bad_col(vals, columns@);
            &&& 0 <= j < columns@.len()
            &&& e == crate::codec::encode_err(vals[j], columns@[j].column_type)
        },
{
    let ghost vals = with_rowid(values.deep_view(), row_id as int);
    let rid = crate::numerals::i64_dec_string(row_id as i64);
    let mut row: Vec<u8> = Vec::new();
    let mut j: usize = 0;
    proof {
        assert(vals.len() == columns@.len());
        assert(row@ =~= encoded_row(vals.subrange(0, 0), columns@.subrange(0, 0)));
    }
    while j < columns.len()
        invariant
            j <= columns@.len(),
            values@.len() + 1 == columns@.len(),
            vals == with_rowid(values.deep_view(), row_id as int),
            rid@ == crate::numerals::dec_str_of_int(row_id as int),
            forall|t: int|
                0 <= t < j ==> crate::codec::encode_ok(
                    vals[t],
                    (#[trigger] columns@[t]).column_type,
                ),
            row@ == encoded_row(vals.subrange(0, j as int), columns@.subrange(0, j as int)),
        decreases columns@.len() - j,
    {
        let value: &String = if j == 0 {
            &rid
        } else {
            &values[j - 1]
        };
        proof {
            assert(value@ == vals[j as int]);
        }
        match crate::codec::encode(value.as_str(), &columns[j]) {
            Err(e) => {
                proof {
                    lemma_first_bad_col_at(vals, columns@, j as int);
                }
                return Err(e);
            },
            Ok(field) => {
                let ghost prev = row@;
                crate::store::append(&mut row, &field);
                proof {
                    let vp = vals.subrange(0, j as int);
                    let cp = columns@.subrange(0, j as int);
                    let ve = vals.subrange(0, j + 1);
                    let ce = columns@.subrange(0, j + 1);
                    assert(ve.drop_last() =~= vp);
                    assert(ce.drop_last() =~= cp);
                    assert(ve.last() == vals[j as int]);
                    assert(ce.last() == columns@[j as int]);
                    assert(row@ =~= encoded_row(ve, ce));
                }
            },
        }
        j = j + 1;
    }
    proof {
        assert(vals.subrange(0, vals.len() as int) =~= vals);
        assert(columns@.subrange(0, columns@.len() as int) =~= columns@);
        lemma_encoded_row_len(vals, columns@);
    }
    Ok(row)
}

} // verus!

verus! {

// ---------------------------------------------------------------------------
// Batch inserts and row identifiers.
// ---------------------------------------------------------------------------

/// Encodes a whole batch of rows. The `i`-th row receives the identifier
/// `last_row_id + 1 + i`, so a batch of `k` rows uses the identifiers
/// `last_row_id + 1` through `last_row_id + k`, in insertion order, and the
/// new last row id is `last_row_id + k`: identifiers never repeat. The
/// returned bytes are the concatenation of the encoded rows, ready to
/// append to the data file.
pub fn insert_rows(td: &crate::utils::TableData, rows: &Vec<Vec<String>>) -> (r: Result<
    (Vec<u8>, i32),
    StoreError,
>)
    requires
        crate::utils::table_data_wf(*td),
        td.last_row_id >= -1,
        td.last_row_id + rows@.len() <= i32::MAX,
        forall|i: int| 0 <= i < rows@.len() ==> (#[trigger] rows@[i])@.len() + 1 == td.schema@.len(),
    ensures
        r is Ok <==> (forall|i: int|
            0 <= i < rows@.len() ==> encode_row_ok(
                with_rowid(#[trigger] rows.deep_view()[i], td.last_row_id + 1 + i),
                td.schema@,
            )),
        r matches Ok((bytes, new_last)) ==> {
            &&& new_last == td.last_row_id + rows@.len()
            &&& bytes@.len() == rows@.len() * td.row_size
            &&& forall|i: int|
                0 <= i < rows@.len() ==> crate::store::chunks(bytes@, td.row_size as int)[i]
                    == encoded_row(
                    with_rowid(#[trigger] rows.deep_view()[i], td.last_row_id + 1 + i),
                    td.schema@,
                )
        },
{
    let w = td.row_size;
    let mut bytes: Vec<u8> = Vec::new();
    let mut i: usize = 0;
    while i < rows.len()
        invariant
            i <= rows@.len(),
            crate::utils::table_data_wf(*td),
            td.last_row_id >= -1,
            td.last_row_id + rows@.len() <= i32::MAX,
            w == td.row_size,
            forall|t: int|
                0 <= t < rows@.len() ==> (#[trigger] rows@[t])@.len() + 1 == td.schema@.len(),
            bytes@.len() == i * w,
            forall|t: int|
                0 <= t < i ==> encode_row_ok(
                    with_rowid(#[trigger] rows.deep_view()[t], td.last_row_id + 1 + t),
                    td.schema@,
                ),
            forall|t: int|
                0 <= t < i ==> bytes@.subrange(t * w, t * w + w) == encoded_row(
                    with_rowid(#[trigger] rows.deep_view()[t], td.last_row_id + 1 + t),
                    td.schema@,
                ),
        decreases rows@.len() - i,
    {
        let id64: i64 = td.last_row_id as i64 + 1 + i as i64;
        let rid: u32 = id64 as u32;
        proof {
            assert(rows.deep_view()[i as int] == rows@[i as int].deep_view());
            assert(rows@[i as int].deep_view() == rows@[i as int]@.map_values(|s: String| s@));
        }
        match insert(&td.schema, &rows[i], rid) {
            Err(e) => {
                return Err(e);
            },
            Ok(row) => {
                let ghost prev = bytes@;
                proof {
                    lemma_width_invariant(
                        *td,
                        with_rowid(rows.deep_view()[i as int], td.last_row_id + 1 + i),
                    );
                }
                crate::store::append(&mut bytes, &row);
                proof {
                    assert(bytes@.len() == prev.len() + w);
                    assert(i as int * w + w == (i + 1) * w) by (nonlinear_arith);
                    assert forall|t: int| 0 <= t < i + 1 implies bytes@.subrange(t * w, t * w + w)
                        == encoded_row(
                        with_rowid(#[trigger] rows.deep_view()[t], td.last_row_id + 1 + t),
                        td.schema@,
                    ) by {
                        assert(t * w >= 0 && t * w + w <= prev.len() + w) by (nonlinear_arith)
                            requires
                                0 <= t < i + 1,
                                w >= 0,
                                prev.len() == i as int * w,
                        ;
                        if t < i {
                            assert(t * w + w <= i as int * w) by (nonlinear_arith)
                                requires
                                    0 <= t && t < i as int,
                                    w >= 0,
                            ;
                            assert(bytes@.subrange(t * w, t * w + w) =~= prev.subrange(
                                t * w,
                                t * w + w,
                            ));
                        } else {
                            assert(bytes@.subrange(t * w, t * w + w) =~= row@);
                        }
                    }
                }
            },
        }
        i = i + 1;
    }
    let new64: i64 = td.last_row_id as i64 + i as i64;
    let new_last: i32 = new64 as i32;
    proof {
        assert(bytes@.len() == rows@.len() * td.row_size);
        if rows@.len() >= 1 {
            crate::domain::lemma_row_width_min(td.schema@);
        }
        assert forall|t: int| 0 <= t < rows@.len() implies crate::store::chunks(
            bytes@,
            td.row_size as int,
        )[t] == encoded_row(
            with_rowid(#[trigger] rows.deep_view()[t], td.last_row_id + 1 + t),
            td.schema@,
        ) by {
            let wi = td.row_size as int;
            assert(bytes@.len() as int / wi == rows@.len()) by (nonlinear_arith)
                requires
                    wi >= 1,
                    bytes@.len() == rows@.len() * wi,
            ;
            assert(crate::store::chunks(bytes@, wi)[t] == bytes@.subrange(t * wi, t * wi + wi));
        }
    }
    Ok((bytes, new_last))
}

// ---------------------------------------------------------------------------
// Rewriting the persisted last row id.
// ---------------------------------------------------------------------------

/// What rewriting the last row id does to a schema record: the first line
/// is replaced by the new identifier; every other line is kept verbatim,
/// and the record still ends with a newline.
pub open spec fn updated_schema_text(s: Seq<char>, id: int) -> Seq<char> {
    let lines = crate::text::split_chars(s, '\n');
    let body = if lines.last().len() == 0 {
        lines.drop_last()
    } else {
        lines
    };
    if body.len() == 0 {
        crate::numerals::dec_str_of_int(id) + seq!['\n']
    } else {
        crate::text::join_chars(
            body.update(0, crate::numerals::dec_str_of_int(id)),
            seq!['\n'],
        ) + seq!['\n']
    }
}

/// Rewrites the first line of a schema record to the new last row id,
/// keeping the column definitions.
pub fn update_last_row_id(content: &str, last_row_id: i32) -> (r: String)
    ensures
        r@ == updated_schema_text(content@, last_row_id as int),
{
    proof {
        reveal_strlit("\n");
    }
    let mut lines = crate::text::split(content, '\n');
    proof {
        crate::text::lemma_split_nonempty(content@, '\n');
        assert(lines.deep_view().len() == lines@.len());
        assert(lines.deep_view()[lines@.len() - 1] == lines@[lines@.len() - 1]@);
    }
    let ghost all_lines = crate::text::split_chars(content@, '\n');
    if lines[lines.len() - 1].as_str().unicode_len() == 0 {
        lines.pop();
        proof {
            assert(lines.deep_view() =~= all_lines.drop_last());
        }
    }
    let ghost body = lines.deep_view();
    proof {
        assert(body == if all_lines.last().len() == 0 {
            all_lines.drop_last()
        } else {
            all_lines
        });
    }
    if lines.len() == 0 {
        let mut out = crate::numerals::i64_dec_string(last_row_id as i64);
        out.append("\n");
        proof {
            assert("\n"@ =~= seq!['\n']);
            assert(out@ =~= updated_schema_text(content@, last_row_id as int));
        }
        return out;
    }
    let ids = crate::numerals::i64_dec_string(last_row_id as i64);
    lines.set(0, ids);
    proof {
        assert(lines.deep_view() =~= body.update(
            0,
            crate::numerals::dec_str_of_int(last_row_id as int),
        ));
    }
    let mut out = crate::text::join(&lines, "\n");
    out.append("\n");
    proof {
        assert("\n"@ =~= seq!['\n']);
        assert(out@ =~= updated_schema_text(content@, last_row_id as int));
    }
    out
}

} // verus!

verus! {

// ---------------------------------------------------------------------------
// Predicate scans.
// ---------------------------------------------------------------------------

/// The name of the implicit row-identifier column, whose lookup bypasses
/// the full scan.
pub open spec fn rowid_name() -> Seq<char> {
    seq!['_', 'r', 'o', 'w', 'i', 'd']
}

/// Every row of the data file decodes under the schema.
pub open spec fn rows_all_ok(data: Seq<u8>, cols: Seq<ColumnDefinition>) -> bool {
    forall|i: int|
        0 <= i < crate::store::chunks(data, crate::codec::row_width(cols)).len()
            ==> crate::codec::row_ok(
            #[trigger] crate::store::chunks(data, crate::codec::row_width(cols))[i],
            cols,
        )
}

/// The decoded rows whose value at column `pos` equals `expected`, in slot
/// order, with multiplicity: exactly the matching rows and no others,
/// whatever order the rows sit in the file.
pub open spec fn matching_rows(
    rows: Seq<Seq<Seq<char>>>,
    pos: int,
    expected: Seq<char>,
) -> Seq<Seq<Seq<char>>>
    decreases rows.len(),
{
    if rows.len() == 0 {
        Seq::empty()
    } else {
        let pre = matching_rows(rows.drop_last(), pos, expected);
        if rows.last()[pos] == expected {
            pre.push(rows.last())
        } else {
            pre
        }
    }
}

/// The decoded contents of every row of the data file.
pub open spec fn decoded_rows(data: Seq<u8>, cols: Seq<ColumnDefinition>) -> Seq<Seq<Seq<char>>> {
    crate::store::chunks(data, crate::codec::row_width(cols)).map_values(
        |row: Seq<u8>| crate::codec::row_values(row, cols),
    )
}

/// A full-table predicate scan, with the reserved fast path: resolving the
/// row-identifier column reads `expected` as a slot number and returns just
/// that row.
///
/// For any other column the result is exactly the rows whose decoded value
/// at that column equals `expected`, in slot order.
#[verifier::rlimit(100)]
#[verifier::loop_isolation(false)]
pub fn select(data: &Vec<u8>, td: &crate::utils::TableData, column: &str, expected: &str) -> (r:
    Result<Vec<Vec<String>>, StoreError>)
    requires
        crate::utils::table_data_wf(*td),
    ensures
        ({
            let cols = td.schema@;
            let ci = crate::utils::first_col_index(cols, column@);
            if ci < 0 {
                r == Err::<Vec<Vec<String>>, StoreError>(StoreError::UnknownColumn)
            } else if column@ == rowid_name() {
                match crate::numerals::int_of_dec_str(expected@) {
                    Some(slot) => {
                        if 0 <= slot <= i64::MAX && slot <= usize::MAX {
                            if (slot + 1) * td.row_size <= data@.len() {
                                let row = data@.subrange(
                                    slot * td.row_size,
                                    slot * td.row_size + td.row_size,
                                );
                                if crate::codec::row_ok(row, cols) {
                                    r matches Ok(out) && out.deep_view() == seq![
                                        crate::codec::row_values(row, cols),
                                    ]
                                } else {
                                    r == Err::<Vec<Vec<String>>, StoreError>(
                                        StoreError::MalformedField,
                                    )
                                }
                            } else {
                                r == Err::<Vec<Vec<String>>, StoreError>(
                                    StoreError::SlotOutOfRange,
                                )
                            }
                        } else {
                            r == Err::<Vec<Vec<String>>, StoreError>(StoreError::NotAnInteger)
                        }
                    },
                    None => r == Err::<Vec<Vec<String>>, StoreError>(StoreError::NotAnInteger),
                }
            } else if rows_all_ok(data@, cols) {
                r matches Ok(out) && out.deep_view() == matching_rows(
                    decoded_rows(data@, cols),
                    ci,
                    expected@,
                )
            } else {
                r == Err::<Vec<Vec<String>>, StoreError>(StoreError::MalformedField)
            }
        }),
{
    let col = match crate::utils::to_column_schema(column, &td.schema) {
        Ok(c) => c,
        Err(e) => {
            return Err(StoreError::UnknownColumn);
        },
    };
    proof {
        reveal_strlit("_rowid");
    }
    let w = td.row_size;
    proof {
        lemma_row_width_min(td.schema@);
    }
    if crate::text::str_eq(column, "_rowid") {
        proof {
            assert(column@ =~= rowid_name());
        }
        let slot64 = match crate::numerals::parse_i64_dec(expected) {
            Some(v) => v,
            None => {
                return Err(StoreError::NotAnInteger);
            },
        };
        if slot64 < 0 || (slot64 as u64) > (usize::MAX as u64) {
            return Err(StoreError::NotAnInteger);
        }
        let slot: usize = slot64 as usize;
        let row = match crate::store::read_slot(data, slot, w) {
            Ok(b) => b,
            Err(e) => {
                return Err(StoreError::SlotOutOfRange);
            },
        };
        proof {
            assert(slot as int * w >= 0 && slot as int * w + w == (slot as int + 1) * w)
                by (nonlinear_arith)
                requires
                    slot as int >= 0,
                    w >= 1,
            ;
            assert(row@.len() == w);
        }
        match crate::codec::read_row(&row, &td.schema) {
            Ok(vals) => {
                let mut out: Vec<Vec<String>> = Vec::new();
                out.push(vals);
                proof {
                    assert(out.deep_view() =~~= seq![
                        crate::codec::row_values(
                            data@.subrange(slot as int * w, slot as int * w + w),
                            td.schema@,
                        ),
                    ]);
                }
                Ok(out)
            },
            Err(e) => Err(StoreError::MalformedField),
        }
    } else {
        proof {
            assert(rowid_name() =~= "_rowid"@ || column@ != "_rowid"@);
            if column@ == rowid_name() {
                assert(column@ =~= "_rowid"@);
            }
        }
        let dlen = data.len();
        let n = dlen / w;
        let ghost all = crate::store::chunks(data@, w as int);
        let ghost ci = crate::utils::first_col_index(td.schema@, column@);
        proof {
            assert(ci == col.column_position as int);
            assert(column@ != rowid_name());
        }
        let mut out: Vec<Vec<String>> = Vec::new();
        let mut i: usize = 0;
        proof {
            assert(all.subrange(0, 0) =~= Seq::<Seq<u8>>::empty());
            assert(out.deep_view() =~~= matching_rows(
                all.subrange(0, 0).map_values(
                    |row: Seq<u8>| crate::codec::row_values(row, td.schema@),
                ),
                col.column_position as int,
                expected@,
            ));
        }
        while i < n
            invariant
                i <= n,
                crate::utils::table_data_wf(*td),
                w == td.row_size,
                w >= 1,
                dlen == data@.len(),
                n == data@.len() as int / w as int,
                all == crate::store::chunks(data@, w as int),
                all.len() == n,
                0 <= col.column_position as int && (col.column_position as int) < td.schema@.len(),
                forall|t: int| 0 <= t < i ==> crate::codec::row_ok(#[trigger] all[t], td.schema@),
                out.deep_view() == matching_rows(
                    all.subrange(0, i as int).map_values(
                        |row: Seq<u8>| crate::codec::row_values(row, td.schema@),
                    ),
                    col.column_position as int,
                    expected@,
                ),
            decreases n - i,
        {
            let row = match crate::store::read_slot(data, i, w) {
                Ok(b) => b,
                Err(e) => {
                    proof {
                        assert((i as int + 1) * w <= data@.len()) by (nonlinear_arith)
                            requires
                                w >= 1,
                                0 <= i as int && (i as int) < n,
                                n == data@.len() as int / w as int,
                                data@.len() >= 0,
                        ;
                        assert(false);
                    }
                    return Err(StoreError::IOFailure);
                },
            };
            proof {
                assert(i as int * w >= 0 && i as int * w + w == (i as int + 1) * w)
                    by (nonlinear_arith)
                    requires
                        i as int >= 0,
                        w >= 1,
                ;
                assert((i as int + 1) * w <= n * w && n * w <= data@.len()) by (nonlinear_arith)
                    requires
                        w >= 1,
                        0 <= i as int && (i as int) < n,
                        n == data@.len() as int / w as int,
                        data@.len() >= 0,
                ;
                assert(row@.len() == w);
                assert(row@ == all[i as int]);
            }
            match crate::codec::read_row(&row, &td.schema) {
                Err(e) => {
                    proof {
                        assert(!crate::codec::row_ok(all[i as int], td.schema@));
                        assert(!rows_all_ok(data@, td.schema@));
                    }
                    return Err(StoreError::MalformedField);
                },
                Ok(vals) => {
                    let ghost prevout = out.deep_view();
                    let ghost pre = all.subrange(0, i as int).map_values(
                        |row: Seq<u8>| crate::codec::row_values(row, td.schema@),
                    );
                    let ghost ext = all.subrange(0, i + 1).map_values(
                        |row: Seq<u8>| crate::codec::row_values(row, td.schema@),
                    );
                    proof {
                        assert(all.subrange(0, i + 1).drop_last() =~= all.subrange(0, i as int));
                        assert(ext.drop_last() =~= pre);
                        assert(ext.last() == crate::codec::row_values(all[i as int], td.schema@));
                        assert(vals.deep_view() == ext.last());
                        assert(vals.deep_view().len() == vals@.len());
                        assert(vals@.len() == td.schema@.len());
                        assert(vals.deep_view()[col.column_position as int] == vals@[col.column_position as int]@);
                        assert(vals.deep_view()[col.column_position as int] == ext.last()[col.column_position as int]);
                    }
                    let keep = crate::text::str_eq(
                        vals[col.column_position as usize].as_str(),
                        expected,
                    );
                    if keep {
                        out.push(vals);
                        proof {
                            assert(out.deep_view() =~~= prevout.push(ext.last()));
                            assert(out.deep_view() == matching_rows(
                                ext,
                                col.column_position as int,
                                expected@,
                            ));
                        }
                    } else {
                        proof {
                            assert(out.deep_view() == matching_rows(
                                ext,
                                col.column_position as int,
                                expected@,
                            ));
                        }
                    }
                },
            }
            i = i + 1;
        }
        proof {
            assert(all.subrange(0, n as int) =~= all);
            assert(rows_all_ok(data@, td.schema@));
            assert(all.subrange(0, n as int).map_values(
                |row: Seq<u8>| crate::codec::row_values(row, td.schema@),
            ) =~~= decoded_rows(data@, td.schema@));
        }
        Ok(out)
    }
}

} // verus!

verus! {

/// Row-id persistence: rewriting the last row id of a schema record that
/// parses (and ends with a newline, as every rendered record does) yields
/// a record that parses to the same columns and row width with the new
/// identifier. Together with the batch contract of `insert_rows`, row
/// identifiers never repeat across restarts.
pub proof fn lemma_update_preserves_schema(s: Seq<char>, id: int)
    requires
        crate::utils::parse_schema(s) is Some,
        i32::MIN <= id <= i32::MAX,
        crate::text::split_chars(s, '\n').last().len() == 0,
    ensures
        ({
            let m = crate::utils::parse_schema(s).unwrap();
            crate::utils::parse_schema(updated_schema_text(s, id)) == Some((id, m.1, m.2))
        }),
{
    let lines = crate::text::split_chars(s, '\n');
    crate::text::lemma_split_nonempty(s, '\n');
    let body = lines.drop_last();
    let m = crate::utils::parse_schema(s).unwrap();
    assert(body.len() >= 3);
    let dec = crate::numerals::dec_str_of_int(id);
    let body2 = body.update(0, dec);
    let updated = updated_schema_text(s, id);
    assert(updated == crate::text::join_chars(body2, seq!['\n']) + seq!['\n']);
    crate::text::lemma_split_sep_free(s, '\n');
    assert(crate::text::sep_free(dec, '\n')) by {
        if id >= 0 {
            crate::numerals::lemma_dec_nat_str_wf(id as nat);
            assert forall|t: int| 0 <= t < dec.len() implies dec[t] != '\n' by {
                assert(crate::numerals::is_dec_digit(dec[t]));
                assert(('\n' as u32) == 10);
            }
        } else {
            crate::numerals::lemma_dec_nat_str_wf((-id) as nat);
            assert forall|t: int| 0 <= t < dec.len() implies dec[t] != '\n' by {
                if t == 0 {
                    assert(dec[0] == '-');
                } else {
                    assert(dec[t] == crate::numerals::dec_nat_str((-id) as nat)[t - 1]);
                    assert(crate::numerals::is_dec_digit(dec[t]));
                    assert(('\n' as u32) == 10);
                }
            }
        }
    }
    assert(forall|j: int|
        0 <= j < body2.len() ==> crate::text::sep_free(#[trigger] body2[j], '\n')) by {
        assert(forall|j: int| 0 <= j < body.len() ==> body[j] == #[trigger] lines[j]);
        assert(forall|j: int|
            0 <= j < lines.len() ==> crate::text::sep_free(#[trigger] lines[j], '\n'));
    }
    crate::text::lemma_split_of_join(body2, '\n');
    crate::text::lemma_split_push_sep(crate::text::join_chars(body2, seq!['\n']), '\n');
    assert(crate::text::join_chars(body2, seq!['\n']).push('\n') =~= updated);
    assert(crate::text::split_chars(updated, '\n') == body2.push(Seq::<char>::empty()));
    let body_new = crate::text::split_chars(updated, '\n').drop_last();
    assert(body_new =~~= body2);
    crate::numerals::lemma_dec_int_roundtrip(id);
    assert(crate::numerals::int_of_dec_str(body_new[0]) == Some(id));
    assert(body_new[1] == body[1]);
    assert(body_new.skip(2) =~~= body.skip(2));
    assert(crate::utils::parse_schema(updated) == Some((id, m.1, m.2)));
}

} // verus!

verus! {

/// A column name that a schema record can carry: free of the separators
/// the record's format uses.
pub open spec fn name_ok(n: Seq<char>) -> bool {
    crate::text::sep_free(n, ' ') && crate::text::sep_free(n, '\n')
}

/// One rendered column line, without its newline.
pub open spec fn col_piece(c: ColumnDefinition) -> Seq<char> {
    c.name@ + seq![' '] + crate::utils::type_token(c.column_type)
}

/// The lines of a rendered schema record, without their newlines.
pub open spec fn schema_pieces(last_row_id: int, row_size: int, cols: Seq<ColumnDefinition>) -> Seq<
    Seq<char>,
> {
    seq![
        crate::numerals::dec_str_of_int(last_row_id),
        crate::numerals::dec_str_of_int(row_size),
    ] + cols.map_values(|c: ColumnDefinition| col_piece(c))
}

/// A rendered schema record is its lines joined by newlines, newline
/// terminated.
proof fn lemma_schema_text_join(last_row_id: int, row_size: int, cols: Seq<ColumnDefinition>)
    ensures
        schema_text(last_row_id, row_size, cols) == crate::text::join_chars(
            schema_pieces(last_row_id, row_size, cols),
            seq!['\n'],
        ) + seq!['\n'],
    decreases cols.len(),
{
    let ps = schema_pieces(last_row_id, row_size, cols);
    if cols.len() == 0 {
        assert(ps =~~= seq![
            crate::numerals::dec_str_of_int(last_row_id),
            crate::numerals::dec_str_of_int(row_size),
        ]);
        assert(ps.drop_first() =~~= seq![crate::numerals::dec_str_of_int(row_size)]);
        assert(crate::text::join_chars(
            seq![crate::numerals::dec_str_of_int(row_size)],
            seq!['\n'],
        ) == crate::numerals::dec_str_of_int(row_size));
        assert(cols_text(cols) =~= Seq::<char>::empty());
        assert(schema_text(last_row_id, row_size, cols) =~= crate::text::join_chars(
            ps,
            seq!['\n'],
        ) + seq!['\n']);
    } else {
        let dl = cols.drop_last();
        lemma_schema_text_join(last_row_id, row_size, dl);
        let psdl = schema_pieces(last_row_id, row_size, dl);
        assert(ps =~~= psdl.push(col_piece(cols.last())));
        crate::text::lemma_join_snoc(psdl, seq!['\n'], col_piece(cols.last()));
        assert(col_line(cols.last()) =~= col_piece(cols.last()) + seq!['\n']);
        assert(schema_text(last_row_id, row_size, cols) =~= schema_text(
            last_row_id,
            row_size,
            dl,
        ) + col_line(cols.last()));
        assert(schema_text(last_row_id, row_size, cols) =~= crate::text::join_chars(
            ps,
            seq!['\n'],
        ) + seq!['\n']);
    }
}

/// A canonical decimal numeral holds no separator.
proof fn lemma_dec_str_sep_free(i: int)
    ensures
        crate::text::sep_free(crate::numerals::dec_str_of_int(i), '\n'),
        crate::text::sep_free(crate::numerals::dec_str_of_int(i), ' '),
{
    let dec = crate::numerals::dec_str_of_int(i);
    if i >= 0 {
        crate::numerals::lemma_dec_nat_str_wf(i as nat);
        assert forall|t: int| 0 <= t < dec.len() implies dec[t] != '\n' && dec[t] != ' ' by {
            assert(crate::numerals::is_dec_digit(dec[t]));
            assert(('\n' as u32) == 10 && (' ' as u32) == 32);
        }
    } else {
        crate::numerals::lemma_dec_nat_str_wf((-i) as nat);
        assert forall|t: int| 0 <= t < dec.len() implies dec[t] != '\n' && dec[t] != ' ' by {
            if t == 0 {
                assert(dec[0] == '-');
            } else {
                assert(dec[t] == crate::numerals::dec_nat_str((-i) as nat)[t - 1]);
                assert(crate::numerals::is_dec_digit(dec[t]));
                assert(('\n' as u32) == 10 && (' ' as u32) == 32);
            }
        }
    }
}

/// Type tokens hold no separator.
proof fn lemma_token_sep_free(t: ColumnType)
    ensures
        crate::text::sep_free(crate::utils::type_token(t), '\n'),
        crate::text::sep_free(crate::utils::type_token(t), ' '),
{
    let tok = crate::utils::type_token(t);
    assert forall|j: int| 0 <= j < tok.len() implies tok[j] != '\n' && tok[j] != ' ' by {
        match t {
            ColumnType::INT => {
                assert(tok =~= seq!['i', 'n', 't']);
                if j == 0 {
                    assert(tok[0] == 'i');
                } else if j == 1 {
                    assert(tok[1] == 'n');
                } else {
                    assert(tok[2] == 't');
                }
            },
            ColumnType::STRING => {
                assert(tok =~= seq!['s', 't', 'r', 'i', 'n', 'g']);
                if j == 0 {
                    assert(tok[0] == 's');
                } else if j == 1 {
                    assert(tok[1] == 't');
                } else if j == 2 {
                    assert(tok[2] == 'r');
                } else if j == 3 {
                    assert(tok[3] == 'i');
                } else if j == 4 {
                    assert(tok[4] == 'n');
                } else {
                    assert(tok[5] == 'g');
                }
            },
        }
    }
}

/// One rendered column line parses back to the column's name and type.
proof fn lemma_col_piece_parses(c: ColumnDefinition)
    requires
        name_ok(c.name@),
    ensures
        crate::utils::parse_col(col_piece(c)) == Some((c.name@, c.column_type)),
{
    let tok = crate::utils::type_token(c.column_type);
    lemma_token_sep_free(c.column_type);
    crate::text::lemma_split_of_piece(tok, ' ');
    crate::text::lemma_split_prefix_piece(c.name@, tok, ' ');
    assert(col_piece(c) =~= c.name@ + seq![' '] + tok);
    let ps = crate::text::split_chars(col_piece(c), ' ');
    assert(ps == seq![c.name@] + seq![tok]);
    assert(ps =~~= seq![c.name@, tok]);
    assert(crate::utils::token_type(tok) == Some(c.column_type)) by {
        if c.column_type is STRING {
            assert(crate::utils::type_token(ColumnType::INT).len() == 3);
            assert(crate::utils::type_token(ColumnType::STRING).len() == 6);
        }
    }
}

/// The rendered column lines parse back to the columns.
proof fn lemma_col_pieces_parse(cols: Seq<ColumnDefinition>)
    requires
        forall|j: int| 0 <= j < cols.len() ==> name_ok((#[trigger] cols[j]).name@),
        forall|j: int| 0 <= j < cols.len() ==> (#[trigger] cols[j]).column_position == j,
    ensures
        ({
            let m = crate::utils::parse_cols(
                cols.map_values(|c: ColumnDefinition| col_piece(c)),
            );
            m is Some && crate::utils::schema_models(cols, m.unwrap())
        }),
    decreases cols.len(),
{
    let lines = cols.map_values(|c: ColumnDefinition| col_piece(c));
    if cols.len() == 0 {
        assert(crate::utils::parse_cols(lines) == Some(Seq::<(Seq<char>, ColumnType)>::empty()));
    } else {
        let dl = cols.drop_last();
        assert(forall|j: int| 0 <= j < dl.len() ==> dl[j] == #[trigger] cols[j]);
        lemma_col_pieces_parse(dl);
        let dlines = dl.map_values(|c: ColumnDefinition| col_piece(c));
        assert(lines.drop_last() =~~= dlines);
        assert(lines.last() == col_piece(cols.last()));
        lemma_col_piece_parses(cols.last());
        let pre = crate::utils::parse_cols(dlines).unwrap();
        let m = pre.push((cols.last().name@, cols.last().column_type));
        assert(crate::utils::parse_cols(lines) == Some(m));
        assert(crate::utils::schema_models(cols, m)) by {
            assert(forall|j: int| 0 <= j < pre.len() ==> m[j] == #[trigger] pre[j]);
            assert(cols[cols.len() - 1] == cols.last());
        }
    }
}

/// Create/load round trip: a freshly rendered schema record parses back to
/// the very table it was rendered from, with the last row id unset.
pub proof fn lemma_create_round_trip(cols: Seq<ColumnDefinition>)
    requires
        1 <= cols.len() <= 256,
        forall|j: int| 0 <= j < cols.len() ==> name_ok((#[trigger] cols[j]).name@),
        forall|j: int| 0 <= j < cols.len() ==> (#[trigger] cols[j]).column_position == j,
    ensures
        ({
            let m = crate::utils::parse_schema(
                schema_text(-1, crate::codec::row_width(cols), cols),
            );
            &&& m is Some
            &&& m.unwrap().0 == -1
            &&& m.unwrap().1 == crate::codec::row_width(cols)
            &&& crate::utils::schema_models(cols, m.unwrap().2)
        }),
{
    let rw = crate::codec::row_width(cols);
    let s = schema_text(-1, rw, cols);
    let ps = schema_pieces(-1, rw, cols);
    lemma_schema_text_join(-1, rw, cols);
    lemma_dec_str_sep_free(-1);
    lemma_dec_str_sep_free(rw);
    assert forall|j: int| 0 <= j < ps.len() implies crate::text::sep_free(
        #[trigger] ps[j],
        '\n',
    ) by {
        if j >= 2 {
            let c = cols[j - 2];
            assert(ps[j] == col_piece(c));
            lemma_token_sep_free(c.column_type);
            assert forall|t: int| 0 <= t < ps[j].len() implies ps[j][t] != '\n' by {
                let tok = crate::utils::type_token(c.column_type);
                if t < c.name@.len() {
                    assert(ps[j][t] == c.name@[t]);
                } else if t == c.name@.len() {
                    assert(ps[j][t] == ' ');
                } else {
                    assert(ps[j][t] == tok[t - c.name@.len() - 1]);
                }
            }
        }
    }
    crate::text::lemma_split_of_join(ps, '\n');
    crate::text::lemma_split_push_sep(crate::text::join_chars(ps, seq!['\n']), '\n');
    assert(crate::text::join_chars(ps, seq!['\n']).push('\n') =~= s);
    assert(crate::text::split_chars(s, '\n') == ps.push(Seq::<char>::empty()));
    let body = crate::text::split_chars(s, '\n').drop_last();
    assert(body =~~= ps);
    crate::numerals::lemma_dec_int_roundtrip(-1);
    crate::numerals::lemma_dec_int_roundtrip(rw);
    crate::domain::lemma_row_width_min(cols);
    assert(body[0] == crate::numerals::dec_str_of_int(-1));
    assert(body[1] == crate::numerals::dec_str_of_int(rw));
    lemma_col_pieces_parse(cols);
    assert(body.skip(2) =~~= cols.map_values(|c: ColumnDefinition| col_piece(c)));
    let m = crate::utils::parse_cols(body.skip(2)).unwrap();
    crate::utils::lemma_model_row_width(cols, m);
    assert(crate::utils::parse_schema(s) == Some((-1int, rw, m)));
}

} // verus!
