use vstd::prelude::*;
use vstd::string::StrSliceExecFns;

use crate::codec::row_width;
use crate::domain::{col_width, ColumnDefinition, ColumnType};
use crate::error::StoreError;
use crate::numerals::{int_of_dec_str, parse_i64_dec};
use crate::text::{split, split_chars, str_eq};

verus! {

/// A table's schema as loaded from its schema record: the row byte width,
/// the column definitions in ordinal order, and the highest row identifier
/// issued so far (`-1` before the first insert).
#[derive(Debug)]
pub struct TableData {
    pub row_size: usize,
    pub schema: Vec<ColumnDefinition>,
    pub last_row_id: i32,
}

/// A well-formed schema: at least one column, positions matching ordinals,
/// few enough columns for their one-byte positions, and a row width that is
/// exactly the sum of the per-column widths.
pub open spec fn table_data_wf(td: TableData) -> bool {
    &&& td.schema@.len() >= 1
    &&& td.schema@.len() <= 256
    &&& td.row_size == row_width(td.schema@)
    &&& forall|j: int|
        0 <= j < td.schema@.len() ==> (#[trigger] td.schema@[j]).column_position == j
}

/// The fixed encoded byte width of one column.
pub fn column_size(column: &ColumnDefinition) -> (r: usize)
    ensures
        r == col_width(column.column_type),
{
    match column.column_type {
        ColumnType::INT => 9,
        ColumnType::STRING => 16,
    }
}

/// The token that names a column type in a schema record.
pub open spec fn type_token(t: ColumnType) -> Seq<char> {
    match t {
        ColumnType::INT => seq!['i', 'n', 't'],
        ColumnType::STRING => seq!['s', 't', 'r', 'i', 'n', 'g'],
    }
}

/// Renders a column type as its schema-record token.
pub fn to_string(column: ColumnType) -> (r: String)
    ensures
        r@ == type_token(column),
{
    proof {
        reveal_strlit("int");
        reveal_strlit("string");
    }
    let r = match column {
        ColumnType::INT => "int".to_owned(),
        ColumnType::STRING => "string".to_owned(),
    };
    proof {
        assert(r@ =~= type_token(column));
    }
    r
}

/// The column type a token denotes, if any.
pub open spec fn token_type(s: Seq<char>) -> Option<ColumnType> {
    if s == type_token(ColumnType::INT) {
        Some(ColumnType::INT)
    } else if s == type_token(ColumnType::STRING) {
        Some(ColumnType::STRING)
    } else {
        None
    }
}

/// Reads a column-type token; any other token is a corrupt schema.
pub fn to_column_type(string: &str) -> (r: Result<ColumnType, StoreError>)
    ensures
        r is Ok <==> token_type(string@) is Some,
        r matches Ok(t) ==> token_type(string@) == Some(t),
        r matches Err(e) ==> e == StoreError::SchemaCorrupt,
{
    proof {
        reveal_strlit("int");
        reveal_strlit("string");
    }
    if str_eq(string, "int") {
        proof {
            assert(string@ =~= type_token(ColumnType::INT));
        }
        Ok(ColumnType::INT)
    } else if str_eq(string, "string") {
        proof {
            assert(string@ =~= type_token(ColumnType::STRING));
        }
        Ok(ColumnType::STRING)
    } else {
        proof {
            assert(type_token(ColumnType::INT) =~= "int"@);
            assert(type_token(ColumnType::STRING) =~= "string"@);
        }
        Err(StoreError::SchemaCorrupt)
    }
}

/// The index of the first column with the given name, or `-1`.
pub open spec fn first_col_index(cols: Seq<ColumnDefinition>, name: Seq<char>) -> int
    decreases cols.len(),
{
    if cols.len() == 0 {
        -1
    } else if cols[0].name@ == name {
        0
    } else {
        let r = first_col_index(cols.drop_first(), name);
        if r < 0 {
            -1
        } else {
            r + 1
        }
    }
}

pub proof fn lemma_first_col_index_at(cols: Seq<ColumnDefinition>, name: Seq<char>, i: int)
    requires
        0 <= i <= cols.len(),
        forall|t: int| 0 <= t < i ==> (#[trigger] cols[t]).name@ != name,
        i == cols.len() || cols[i].name@ == name,
    ensures
        first_col_index(cols, name) == if i == cols.len() {
            -1int
        } else {
            i
        },
    decreases i,
{
    if cols.len() == 0 {
    } else if i == 0 {
    } else {
        assert(cols[0].name@ != name);
        let d = cols.drop_first();
        assert(forall|t: int| 0 <= t < i - 1 ==> d[t] == #[trigger] cols[t + 1]);
        assert(i - 1 == d.len() || d[i - 1].name@ == name);
        lemma_first_col_index_at(d, name, i - 1);
    }
}

/// Resolves a column name to its definition, the first match in ordinal
/// order; an unknown name is reported as such.
pub fn to_column_schema(value: &str, schemas: &Vec<ColumnDefinition>) -> (r: Result<
    ColumnDefinition,
    StoreError,
>)
    ensures
        r is Ok <==> first_col_index(schemas@, value@) >= 0,
        r matches Ok(c) ==> {
            let j = first_col_index(schemas@, value@);
            &&& 0 <= j < schemas@.len()
            &&& c.name@ == schemas@[j].name@
            &&& c.column_type == schemas@[j].column_type
            &&& c.column_position == schemas@[j].column_position
        },
        r matches Err(e) ==> e == StoreError::UnknownColumn,
{
    let mut i: usize = 0;
    while i < schemas.len()
        invariant
            i <= schemas@.len(),
            forall|t: int| 0 <= t < i ==> (#[trigger] schemas@[t]).name@ != value@,
        decreases schemas@.len() - i,
    {
        if str_eq(schemas[i].name.as_str(), value) {
            proof {
                lemma_first_col_index_at(schemas@, value@, i as int);
            }
            return Ok(schemas[i].clone());
        }
        i = i + 1;
    }
    proof {
        lemma_first_col_index_at(schemas@, value@, schemas@.len() as int);
    }
    Err(StoreError::UnknownColumn)
}

// ---------------------------------------------------------------------------
// Parsing a schema record.
// ---------------------------------------------------------------------------

/// One column line: exactly a name and a type token, space-separated.
pub open spec fn parse_col(line: Seq<char>) -> Option<(Seq<char>, ColumnType)> {
    let ps = split_chars(line, ' ');
    if ps.len() == 2 {
        match token_type(ps[1]) {
            Some(t) => Some((ps[0], t)),
            None => None,
        }
    } else {
        None
    }
}

/// All column lines, in order; any bad line spoils the whole record.
pub open spec fn parse_cols(lines: Seq<Seq<char>>) -> Option<Seq<(Seq<char>, ColumnType)>>
    decreases lines.len(),
{
    if lines.len() == 0 {
        Some(Seq::empty())
    } else {
        match parse_cols(lines.drop_last()) {
            Some(pre) => match parse_col(lines.last()) {
                Some(c) => Some(pre.push(c)),
                None => None,
            },
            None => None,
        }
    }
}

/// The row width of a parsed column list.
pub open spec fn model_row_width(cols: Seq<(Seq<char>, ColumnType)>) -> int
    decreases cols.len(),
{
    if cols.len() == 0 {
        0
    } else {
        model_row_width(cols.drop_last()) + col_width(cols.last().1)
    }
}

/// What a schema record means: line one is the last row id, line two the
/// row byte width, and every further line one column. The final line of the
/// record is blank (the record ends with a newline) and is dropped. The
/// record is corrupt unless the row width equals the sum of the column
/// widths, there is at least one column, and there are few enough columns
/// for their one-byte ordinals.
pub open spec fn parse_schema(s: Seq<char>) -> Option<(int, int, Seq<(Seq<char>, ColumnType)>)> {
    let lines = split_chars(s, '\n');
    let body = lines.drop_last();
    if body.len() < 3 {
        None
    } else {
        match (int_of_dec_str(body[0]), int_of_dec_str(body[1])) {
            (Some(lr), Some(rs)) => {
                if i32::MIN <= lr <= i32::MAX {
                    match parse_cols(body.skip(2)) {
                        Some(cols) => {
                            if 1 <= cols.len() <= 256 && rs == model_row_width(cols) {
                                Some((lr, rs, cols))
                            } else {
                                None
                            }
                        },
                        None => None,
                    }
                } else {
                    None
                }
            },
            _ => None,
        }
    }
}

/// The loaded schema matches the parsed model, with ordinals assigned in
/// order.
pub open spec fn schema_models(
    cols: Seq<ColumnDefinition>,
    m: Seq<(Seq<char>, ColumnType)>,
) -> bool {
    &&& cols.len() == m.len()
    &&& forall|j: int|
        0 <= j < cols.len() ==> {
            &&& (#[trigger] cols[j]).name@ == m[j].0
            &&& cols[j].column_type == m[j].1
            &&& cols[j].column_position == j
        }
}

pub proof fn lemma_model_row_width(cols: Seq<ColumnDefinition>, m: Seq<(Seq<char>, ColumnType)>)
    requires
        schema_models(cols, m),
    ensures
        row_width(cols) == model_row_width(m),
    decreases cols.len(),
{
    if cols.len() > 0 {
        assert(schema_models(cols.drop_last(), m.drop_last())) by {
            assert(forall|j: int|
                0 <= j < cols.len() - 1 ==> cols.drop_last()[j] == #[trigger] cols[j]);
            assert(forall|j: int|
                0 <= j < m.len() - 1 ==> m.drop_last()[j] == #[trigger] m[j]);
        }
        lemma_model_row_width(cols.drop_last(), m.drop_last());
    }
}

/// If one column line is bad, the whole column list is bad.
proof fn lemma_parse_cols_fail(lines: Seq<Seq<char>>, j: int)
    requires
        0 <= j < lines.len(),
        parse_col(lines[j]) is None,
    ensures
        parse_cols(lines) is None,
    decreases lines.len(),
{
    if lines.len() > 0 {
        if j == lines.len() - 1 {
        } else {
            assert(lines.drop_last()[j] == lines[j]);
            lemma_parse_cols_fail(lines.drop_last(), j);
        }
    }
}

/// Parses the text of a schema record.
pub fn load_table_data(content: &str) -> (r: Result<TableData, StoreError>)
    ensures
        r is Ok <==> parse_schema(content@) is Some,
        r matches Ok(td) ==> {
            let m = parse_schema(content@).unwrap();
            &&& td.last_row_id as int == m.0
            &&& td.row_size as int == m.1
            &&& schema_models(td.schema@, m.2)
            &&& table_data_wf(td)
        },
        r matches Err(e) ==> e == StoreError::SchemaCorrupt,
{
    let lines = split(content, '\n');
    let ghost body = split_chars(content@, '\n').drop_last();
    proof {
        assert(lines.deep_view().len() == lines@.len());
    }
    if lines.len() < 4 {
        return Err(StoreError::SchemaCorrupt);
    }
    let nbody = lines.len() - 1;
    proof {
        assert(body.len() == nbody);
        assert(body[0] == lines.deep_view()[0]);
        assert(body[1] == lines.deep_view()[1]);
    }
    let lr = match parse_i64_dec(lines[0].as_str()) {
        Some(v) => v,
        None => {
            proof {
                let p = int_of_dec_str(body[0]);
                if p is Some {
                    assert(!(i32::MIN <= p.unwrap() <= i32::MAX));
                }
            }
            return Err(StoreError::SchemaCorrupt);
        },
    };
    if lr < -2147483648i64 || lr > 2147483647i64 {
        return Err(StoreError::SchemaCorrupt);
    }
    let rs = match parse_i64_dec(lines[1].as_str()) {
        Some(v) => v,
        None => {
            proof {
                let p = int_of_dec_str(body[1]);
                let ps = parse_schema(content@);
                if p is Some && ps is Some {
                    assert(p.unwrap() > i64::MAX || p.unwrap() < i64::MIN);
                    assert(ps.unwrap().1 == model_row_width(ps.unwrap().2));
                    lemma_model_width_bound(ps.unwrap().2);
                }
            }
            return Err(StoreError::SchemaCorrupt);
        },
    };
    if nbody - 2 > 256 {
        proof {
            let ps = parse_schema(content@);
            if ps is Some {
                lemma_parse_cols_len(body.skip(2));
            }
        }
        return Err(StoreError::SchemaCorrupt);
    }
    let mut schema: Vec<ColumnDefinition> = Vec::new();
    let mut width: usize = 0;
    let mut j: usize = 2;
    proof {
        assert(body.skip(2).subrange(0, 0) =~= Seq::<Seq<char>>::empty());
        assert(parse_cols(body.skip(2).subrange(0, 0)) == Some(
            Seq::<(Seq<char>, ColumnType)>::empty(),
        ));
    }
    while j < nbody
        invariant
            2 <= j <= nbody,
            nbody - 2 <= 256,
            nbody == lines.deep_view().len() - 1,
            body == split_chars(content@, '\n').drop_last(),
            body.len() == nbody,
            lines.deep_view().len() == lines@.len(),
            forall|t: int| 0 <= t < nbody ==> body[t] == lines.deep_view()[t],
            schema@.len() == j - 2,
            width <= (j - 2) * 16,
            width == row_width(schema@),
            ({
                let m = parse_cols(body.skip(2).subrange(0, j - 2));
                m is Some && schema_models(schema@, m.unwrap())
            }),
        decreases nbody - j,
    {
        let line = &lines[j];
        let pieces = split(line.as_str(), ' ');
        let ghost sp = split_chars(body[j as int], ' ');
        proof {
            assert(pieces.deep_view().len() == pieces@.len());
            assert(body.skip(2)[j - 2] == body[j as int]);
        }
        if pieces.len() != 2 {
            proof {
                assert(parse_col(body[j as int]) is None);
                lemma_parse_cols_fail(body.skip(2), j - 2);
            }
            return Err(StoreError::SchemaCorrupt);
        }
        let t = match to_column_type(pieces[1].as_str()) {
            Ok(t) => t,
            Err(_) => {
                proof {
                    assert(pieces.deep_view()[1] == sp[1]);
                    assert(parse_col(body[j as int]) is None);
                    lemma_parse_cols_fail(body.skip(2), j - 2);
                }
                return Err(StoreError::SchemaCorrupt);
            },
        };
        let name = pieces[0].clone();
        let def = ColumnDefinition {
            name,
            column_type: t,
            column_position: (j - 2) as u8,
        };
        let w = column_size(&def);
        let ghost old_schema = schema@;
        schema.push(def);
        width = width + w;
        proof {
            let pre = body.skip(2).subrange(0, j - 2);
            let ext = body.skip(2).subrange(0, j - 1);
            assert(ext.drop_last() =~= pre);
            assert(ext.last() == body[j as int]);
            assert(pieces.deep_view()[0] == sp[0]);
            assert(pieces.deep_view()[1] == sp[1]);
            assert(parse_col(body[j as int]) == Some((sp[0], t)));
            assert(schema@ == old_schema.push(
                ColumnDefinition {
                    name: schema@[j - 2].name,
                    column_type: t,
                    column_position: (j - 2) as u8,
                },
            ));
            assert(schema@.drop_last() =~= old_schema);
            assert(row_width(schema@) == row_width(old_schema) + col_width(t));
            let m = parse_cols(ext).unwrap();
            assert(schema_models(schema@, m));
        }
        j = j + 1;
    }
    proof {
        assert(body.skip(2).subrange(0, nbody - 2) =~= body.skip(2));
    }
    if rs < 0 || width as i64 != rs {
        proof {
            let ps = parse_schema(content@);
            if ps is Some {
                assert(ps.unwrap().2 == parse_cols(body.skip(2)).unwrap());
                lemma_model_row_width(schema@, ps.unwrap().2);
            }
        }
        return Err(StoreError::SchemaCorrupt);
    }
    let td = TableData { row_size: width, schema, last_row_id: lr as i32 };
    proof {
        let m = parse_cols(body.skip(2)).unwrap();
        lemma_model_row_width(td.schema@, m);
        assert(parse_schema(content@) == Some((lr as int, rs as int, m)));
    }
    Ok(td)
}

/// A parsed column list is as long as its lines.
proof fn lemma_parse_cols_len(lines: Seq<Seq<char>>)
    requires
        parse_cols(lines) is Some,
    ensures
        parse_cols(lines).unwrap().len() == lines.len(),
    decreases lines.len(),
{
    if lines.len() > 0 {
        lemma_parse_cols_len(lines.drop_last());
    }
}

/// A parsed column list never needs more than sixteen bytes per column.
proof fn lemma_model_width_bound(m: Seq<(Seq<char>, ColumnType)>)
    ensures
        0 <= model_row_width(m) <= 16 * m.len(),
    decreases m.len(),
{
    if m.len() > 0 {
        lemma_model_width_bound(m.drop_last());
    }
}

} // verus!
