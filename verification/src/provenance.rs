//! The provenance table: the Oracle ID of every numeric ID, under a header
//! that vouches for the rows.

use vstd::prelude::*;
use vstd::utf8::encode_utf8;

use crate::digest::{hex_sha256, sha256};
use crate::numerals::{
    append_decimal, decimal, hex, is_digit, is_hex_digit, law_decimal_reads_back, lemma_decimal,
    lemma_hex, number_up_to, read_number,
};
use crate::tables::{
    column_index, field, fields_of, fits_line, lacks, lemma_lines_unlines, lemma_not_blank,
    lemma_place_of, lemma_split_join, place_of,
};
use crate::text::{
    append_str, chars_of, find_char, join, join_tail, lemma_find_char, lemma_find_char_is,
    line_slices, lines, split, string_of, trim, trimmed, unlines, views,
};
use crate::uuids::{
    hyphenated, hyphenated_text, law_hyphenated_reads_back, lemma_hyphenated_chars, parse_uuid,
    uuid_value, Uuid,
};

verus! {

/// What is wrong with a row of the catalog.
#[derive(Clone, Copy, Debug, Eq, PartialEq, Structural)]
pub enum ProvenanceRowProblem {
    /// It has no ID.
    MissingId,
    /// Its ID is no number.
    InvalidId,
    /// It has no Oracle ID.
    MissingOracleId,
    /// Its Oracle ID is no UUID.
    InvalidOracleId,
    /// Its ID is not the next one.
    NotDense { expected: u64, found: u32 },
}

/// Why a provenance table cannot be made. Lines are counted from one.
#[derive(Clone, Copy, Debug, Eq, PartialEq, Structural)]
pub enum ProvenanceError {
    /// The catalog's identity is not a lowercase hexadecimal SHA-256 digest.
    InvalidCatalogIdentity,
    /// The catalog has no header.
    NoHeader,
    /// The header has no column for IDs.
    NoIdColumn,
    /// The header has no column for Oracle IDs.
    NoOracleColumn,
    /// The row on the line has a problem.
    Row { line: usize, problem: ProvenanceRowProblem },
    /// The catalog has no rows.
    NoRows,
}

/// Why a provenance table cannot be made, with the line as a number of any
/// size.
pub enum ProvenanceProblem {
    NoHeader,
    NoIdColumn,
    NoOracleColumn,
    Row { line: int, problem: ProvenanceRowProblem },
    NoRows,
}

/// Whether the text is a lowercase hexadecimal SHA-256 digest.
pub open spec fn is_identity(text: Seq<char>) -> bool {
    text.len() == 64 && forall|i: int|
        0 <= i < text.len() ==> (is_digit(#[trigger] text[i]) || 'a' <= text[i] <= 'f')
}

/// The Oracle ID on a line that should have the given ID.
pub open spec fn oracle_of(
    line: Seq<char>,
    id_column: int,
    oracle_column: int,
    expected: nat,
) -> Result<u128, ProvenanceRowProblem> {
    let fields = split(line, '\t');
    if id_column >= fields.len() {
        Err(ProvenanceRowProblem::MissingId)
    } else {
        match number_up_to(fields[id_column], u32::MAX as nat) {
            None => Err(ProvenanceRowProblem::InvalidId),
            Some(id) => if oracle_column >= fields.len() {
                Err(ProvenanceRowProblem::MissingOracleId)
            } else {
                match uuid_value(fields[oracle_column]) {
                    None => Err(ProvenanceRowProblem::InvalidOracleId),
                    Some(oracle_id) => if id != expected {
                        Err(
                            ProvenanceRowProblem::NotDense {
                                expected: expected as u64,
                                found: id as u32,
                            },
                        )
                    } else {
                        Ok(oracle_id as u128)
                    },
                }
            },
        }
    }
}

/// The Oracle IDs on the lines below the header, that of ID one first. Blank
/// lines are no rows.
pub open spec fn oracles_of(rows: Seq<Seq<char>>, id_column: int, oracle_column: int) -> Result<
    Seq<u128>,
    ProvenanceProblem,
>
    decreases rows.len(),
{
    if rows.len() == 0 {
        Ok(Seq::empty())
    } else {
        match oracles_of(rows.drop_last(), id_column, oracle_column) {
            Err(problem) => Err(problem),
            Ok(earlier) => if trim(rows.last()).len() == 0 {
                Ok(earlier)
            } else {
                match oracle_of(rows.last(), id_column, oracle_column, earlier.len() + 1) {
                    Ok(oracle_id) => Ok(earlier.push(oracle_id)),
                    Err(problem) => Err(
                        ProvenanceProblem::Row { line: rows.len() as int + 1, problem },
                    ),
                }
            },
        }
    }
}

/// The Oracle IDs of a catalog, that of ID one first.
pub open spec fn provenance_of(catalog: Seq<char>) -> Result<Seq<u128>, ProvenanceProblem> {
    let rows = lines(catalog);
    if rows.len() == 0 {
        Err(ProvenanceProblem::NoHeader)
    } else {
        let columns = split(rows[0], '\t');
        match place_of(columns, "#id"@) {
            None => Err(ProvenanceProblem::NoIdColumn),
            Some(id_column) => match place_of(columns, "oracle_id"@) {
                None => Err(ProvenanceProblem::NoOracleColumn),
                Some(oracle_column) => match oracles_of(
                    rows.drop_first(),
                    id_column,
                    oracle_column,
                ) {
                    Err(problem) => Err(problem),
                    Ok(oracles) => if oracles.len() == 0 {
                        Err(ProvenanceProblem::NoRows)
                    } else {
                        Ok(oracles)
                    },
                },
            },
        }
    }
}

/// The rows of the table.
pub open spec fn body_rows(oracles: Seq<u128>) -> Seq<Seq<char>> {
    Seq::new(
        oracles.len(),
        |i: int| decimal((i + 1) as nat) + seq!['\t'] + hyphenated_text(oracles[i] as nat),
    )
}

/// The text of the rows.
pub open spec fn body_of(oracles: Seq<u128>) -> Seq<char> {
    unlines(body_rows(oracles))
}

/// The header of the table, with its line feed.
pub open spec fn header_of(identity: Seq<char>, cards: nat, body_hash: Seq<char>) -> Seq<char> {
    "#id\toracle_id\tmetadata: v=1 kind=provenance-oracle-ids catalog_identity="@ + identity
        + " cards="@ + decimal(cards) + " body_sha256="@ + body_hash + "\n"@
}

/// The whole table.
pub open spec fn document_of(identity: Seq<char>, oracles: Seq<u128>) -> Seq<char> {
    header_of(identity, oracles.len(), hex(sha256(encode_utf8(body_of(oracles))))) + body_of(
        oracles,
    )
}

/// Whether the error is what the problem says.
pub open spec fn tells(error: ProvenanceError, problem: ProvenanceProblem) -> bool {
    match (error, problem) {
        (ProvenanceError::NoHeader, ProvenanceProblem::NoHeader) => true,
        (ProvenanceError::NoIdColumn, ProvenanceProblem::NoIdColumn) => true,
        (ProvenanceError::NoOracleColumn, ProvenanceProblem::NoOracleColumn) => true,
        (
            ProvenanceError::Row { line, problem },
            ProvenanceProblem::Row { line: other_line, problem: other },
        ) => line == other_line && problem == other,
        (ProvenanceError::NoRows, ProvenanceProblem::NoRows) => true,
        _ => false,
    }
}

proof fn lemma_first_problem(
    rows: Seq<Seq<char>>,
    id_column: int,
    oracle_column: int,
    count: int,
)
    requires
        0 <= count <= rows.len(),
        oracles_of(rows.take(count), id_column, oracle_column) is Err,
    ensures
        oracles_of(rows, id_column, oracle_column) == oracles_of(
            rows.take(count),
            id_column,
            oracle_column,
        ),
    decreases rows.len(),
{
    if count == rows.len() {
        assert(rows.take(count) =~= rows);
    } else {
        assert(rows.drop_last().take(count) =~= rows.take(count));
        lemma_first_problem(rows.drop_last(), id_column, oracle_column, count);
    }
}

/// Reads a line that should have the given ID.
fn read_oracle(
    line: &[char],
    id_column: usize,
    oracle_column: usize,
    line_number: usize,
    expected: u64,
) -> (res: Result<u128, ProvenanceRowProblem>)
    ensures
        res == oracle_of(line@, id_column as int, oracle_column as int, expected as nat),
{
    let fields = fields_of(line);
    let ghost texts = split(line@, '\t');
    assert(forall|i: int| 0 <= i < fields@.len() ==> texts[i] == (#[trigger] fields@[i])@);
    let id_text = match field(fields.as_slice(), id_column, line_number, "#id") {
        Ok(text) => chars_of(text.as_str()),
        Err(_) => {
            return Err(ProvenanceRowProblem::MissingId);
        },
    };
    let id: u64 = match read_number(id_text.as_slice(), 0xffff_ffff) {
        Some(id) => id,
        None => {
            return Err(ProvenanceRowProblem::InvalidId);
        },
    };
    let oracle_id = match field(fields.as_slice(), oracle_column, line_number, "oracle_id") {
        Ok(text) => match parse_uuid(text.as_str()) {
            Some(id) => id,
            None => {
                return Err(ProvenanceRowProblem::InvalidOracleId);
            },
        },
        Err(_) => {
            return Err(ProvenanceRowProblem::MissingOracleId);
        },
    };
    if id != expected {
        return Err(ProvenanceRowProblem::NotDense { expected, found: id as u32 });
    }
    Ok(oracle_id.0)
}

/// Reads the Oracle IDs of a catalog, that of ID one first.
pub fn read_oracle_ids(catalog: &str) -> (res: Result<Vec<u128>, ProvenanceError>)
    ensures
        match res {
            Ok(oracles) => provenance_of(catalog@) == Ok::<Seq<u128>, ProvenanceProblem>(oracles@),
            Err(error) => provenance_of(catalog@) is Err && tells(
                error,
                provenance_of(catalog@)->Err_0,
            ),
        },
{
    let chars = chars_of(catalog);
    let rows = line_slices(chars.as_slice());
    let ghost all = lines(catalog@);
    if rows.len() == 0 {
        assert(all.len() == 0);
        return Err(ProvenanceError::NoHeader);
    }
    assert(all[0] == rows@[0]@);
    let columns = fields_of(rows[0]);
    let id_column: usize = match column_index(columns.as_slice(), "#id") {
        Ok(at) => at,
        Err(_) => {
            return Err(ProvenanceError::NoIdColumn);
        },
    };
    let oracle_column: usize = match column_index(columns.as_slice(), "oracle_id") {
        Ok(at) => at,
        Err(_) => {
            return Err(ProvenanceError::NoOracleColumn);
        },
    };
    let ghost below = all.drop_first();
    let mut oracles: Vec<u128> = Vec::new();
    let mut i: usize = 1;
    assert(below.take(0) =~= Seq::empty());
    while i < rows.len()
        invariant
            1 <= i <= rows@.len(),
            all == views(rows@),
            all == lines(catalog@),
            place_of(split(all[0], '\t'), "#id"@) == Some(id_column as int),
            place_of(split(all[0], '\t'), "oracle_id"@) == Some(oracle_column as int),
            below == all.drop_first(),
            oracles@.len() <= i - 1,
            oracles_of(below.take(i - 1), id_column as int, oracle_column as int) == Ok::<
                Seq<u128>,
                ProvenanceProblem,
            >(oracles@),
        decreases rows@.len() - i,
    {
        let row = rows[i];
        proof {
            assert(below.take(i as int).drop_last() =~= below.take(i - 1));
            assert(below.take(i as int).last() == row@);
        }
        if trimmed(row).len() > 0 {
            let expected: u64 = oracles.len() as u64 + 1;
            match read_oracle(row, id_column, oracle_column, i + 1, expected) {
                Ok(oracle_id) => {
                    oracles.push(oracle_id);
                },
                Err(problem) => {
                    proof {
                        lemma_first_problem(
                            below,
                            id_column as int,
                            oracle_column as int,
                            i as int,
                        );
                    }
                    return Err(ProvenanceError::Row { line: i + 1, problem });
                },
            }
        }
        i += 1;
    }
    assert(below.take(below.len() as int) =~= below);
    if oracles.len() == 0 {
        return Err(ProvenanceError::NoRows);
    }
    Ok(oracles)
}

/// Whether the text is a lowercase hexadecimal SHA-256 digest.
fn identity_like(text: &[char]) -> (res: bool)
    ensures
        res == is_identity(text@),
{
    if text.len() != 64 {
        return false;
    }
    let mut i: usize = 0;
    while i < text.len()
        invariant
            i <= text@.len(),
            forall|j: int|
                0 <= j < i ==> (is_digit(#[trigger] text@[j]) || 'a' <= text@[j] <= 'f'),
        decreases text@.len() - i,
    {
        let c = text[i];
        let fits = ('0' <= c && c <= '9') || ('a' <= c && c <= 'f');
        if !fits {
            assert(!is_digit(text@[i as int]));
            return false;
        }
        i += 1;
    }
    true
}

/// The header of the table.
pub fn provenance_header(identity: &str, cards: u64, body_hash: &str) -> (out: String)
    ensures
        out@ == header_of(identity@, cards as nat, body_hash@),
{
    let mut out = chars_of(
        "#id\toracle_id\tmetadata: v=1 kind=provenance-oracle-ids catalog_identity=",
    );
    append_str(&mut out, identity);
    append_str(&mut out, " cards=");
    append_decimal(&mut out, cards);
    append_str(&mut out, " body_sha256=");
    append_str(&mut out, body_hash);
    append_str(&mut out, "\n");
    string_of(out.as_slice())
}

/// The rows of the table.
pub fn provenance_body(oracles: &[u128]) -> (out: String)
    ensures
        out@ == body_of(oracles@),
{
    let mut out: Vec<char> = Vec::new();
    let mut i: usize = 0;
    assert(body_rows(oracles@.take(0)) =~= Seq::empty());
    while i < oracles.len()
        invariant
            i <= oracles@.len(),
            out@ == unlines(body_rows(oracles@.take(i as int))),
        decreases oracles@.len() - i,
    {
        let ghost before = out@;
        let id: u64 = i as u64 + 1;
        append_decimal(&mut out, id);
        out.push('\t');
        append_str(&mut out, hyphenated(Uuid(oracles[i])).as_str());
        out.push('\n');
        proof {
            let rows = body_rows(oracles@.take(i + 1));
            assert(rows.drop_last() =~= body_rows(oracles@.take(i as int)));
            assert(rows.last() =~= decimal(id as nat) + seq!['\t'] + hyphenated_text(
                oracles@[i as int] as nat,
            ));
            assert(out@ =~= before + rows.last() + seq!['\n']);
        }
        i += 1;
    }
    assert(oracles@.take(oracles@.len() as int) =~= oracles@);
    string_of(out.as_slice())
}

/// A provenance table and the number of its rows.
#[derive(Debug)]
pub struct Provenance {
    pub document: String,
    pub rows: usize,
}

/// Makes the provenance table of a catalog, for the catalog file with the
/// given identity.
pub fn make_provenance(catalog_identity: &str, catalog: &str) -> (res: Result<
    Provenance,
    ProvenanceError,
>)
    ensures
        match res {
            Ok(table) => is_identity(catalog_identity@) && provenance_of(catalog@) is Ok
                && table.document@ == document_of(
                catalog_identity@,
                provenance_of(catalog@)->Ok_0,
            ) && table.rows == provenance_of(catalog@)->Ok_0.len(),
            Err(ProvenanceError::InvalidCatalogIdentity) => !is_identity(catalog_identity@),
            Err(error) => is_identity(catalog_identity@) && provenance_of(catalog@) is Err
                && tells(error, provenance_of(catalog@)->Err_0),
        },
{
    let identity = chars_of(catalog_identity);
    if !identity_like(identity.as_slice()) {
        return Err(ProvenanceError::InvalidCatalogIdentity);
    }
    let oracles = match read_oracle_ids(catalog) {
        Ok(oracles) => oracles,
        Err(error) => {
            return Err(error);
        },
    };
    let body = provenance_body(oracles.as_slice());
    let body_hash = hex_sha256(body.as_str().as_bytes());
    let header = provenance_header(catalog_identity, oracles.len() as u64, body_hash.as_str());
    let mut document = chars_of(header.as_str());
    append_str(&mut document, body.as_str());
    Ok(Provenance { document: string_of(document.as_slice()), rows: oracles.len() })
}

/// The table vouches for itself: the digest in its header is that of all that
/// follows the header's line.
pub proof fn law_provenance_vouches_for_its_rows(identity: Seq<char>, oracles: Seq<u128>)
    requires
        is_identity(identity),
    ensures
        ({
            let document = document_of(identity, oracles);
            let body = body_of(oracles);
            let end = header_of(
                identity,
                oracles.len(),
                hex(sha256(encode_utf8(body))),
            ).len() - 1;
            &&& find_char(document, '\n') == Some(end)
            &&& document.skip(end + 1) == body
        }),
{
    let body = body_of(oracles);
    let hash = hex(sha256(encode_utf8(body)));
    let header = header_of(identity, oracles.len(), hash);
    let document = document_of(identity, oracles);
    let front = "#id\toracle_id\tmetadata: v=1 kind=provenance-oracle-ids catalog_identity="@;
    reveal_strlit("#id\toracle_id\tmetadata: v=1 kind=provenance-oracle-ids catalog_identity=");
    reveal_strlit(" cards=");
    reveal_strlit(" body_sha256=");
    reveal_strlit("\n");
    let numeral = decimal(oracles.len());
    lemma_decimal(oracles.len());
    lemma_hex(sha256(encode_utf8(body)));
    let a = front.len() as int;
    let b = a + identity.len();
    let c = b + " cards="@.len();
    let d = c + numeral.len();
    let e = d + " body_sha256="@.len();
    let f = e + hash.len();
    assert(header.len() == f + 1);
    assert(header[f] == '\n');
    assert(lacks(front, '\n'));
    assert(lacks(" cards="@, '\n'));
    assert(lacks(" body_sha256="@, '\n'));
    assert forall|j: int| 0 <= j < f implies header[j] != '\n' by {
        if j < a {
            assert(header[j] == front[j]);
        } else if j < b {
            assert(header[j] == identity[j - a]);
        } else if j < c {
            assert(header[j] == " cards="@[j - b]);
        } else if j < d {
            assert(header[j] == numeral[j - c]);
            assert(is_digit(numeral[j - c]));
        } else if j < e {
            assert(header[j] == " body_sha256="@[j - d]);
        } else {
            assert(header[j] == hash[j - e]);
            assert(is_hex_digit(hash[j - e]));
        }
    }
    assert forall|j: int| 0 <= j < f implies document[j] != '\n' by {
        assert(document[j] == header[j]);
    }
    assert(document[f] == header[f]);
    lemma_find_char_is(document, '\n', f);
    assert(document.skip(f + 1) =~= body);
}

proof fn lemma_body_row(oracles: Seq<u128>, at: int)
    requires
        0 <= at < oracles.len() <= u32::MAX,
    ensures
        ({
            let row = body_rows(oracles)[at];
            &&& fits_line(row)
            &&& trim(row).len() > 0
            &&& oracle_of(row, 0, 1, (at + 1) as nat) == Ok::<u128, ProvenanceRowProblem>(
                oracles[at],
            )
        }),
{
    let row = body_rows(oracles)[at];
    let numeral = decimal((at + 1) as nat);
    let form = hyphenated_text(oracles[at] as nat);
    let parts = seq![numeral, form];
    lemma_decimal((at + 1) as nat);
    lemma_hyphenated_chars(oracles[at] as nat);
    law_decimal_reads_back((at + 1) as nat, u32::MAX as nat);
    law_hyphenated_reads_back(oracles[at]);
    assert(parts.drop_first().drop_first() =~= Seq::empty());
    assert(join_tail(parts.drop_first().drop_first(), seq!['\t']) =~= Seq::empty());
    assert(join_tail(parts.drop_first(), seq!['\t']) =~= seq!['\t'] + form);
    assert(join(parts, seq!['\t']) =~= row);
    assert forall|i: int| 0 <= i < parts.len() implies lacks(#[trigger] parts[i], '\t') by {
        assert forall|j: int| 0 <= j < parts[i].len() implies #[trigger] parts[i][j] != '\t' by {
            if i == 0 {
                assert(is_digit(numeral[j]));
            } else {
                assert(is_hex_digit(form[j]) || form[j] == '-');
            }
        }
    }
    lemma_split_join(parts, '\t');
    assert forall|j: int| 0 <= j < row.len() implies #[trigger] row[j] != '\n' by {
        if j < numeral.len() {
            assert(is_digit(numeral[j]));
        } else if j > numeral.len() {
            assert(row[j] == form[j - numeral.len() - 1]);
        }
    }
    assert(row.last() == form[35]);
    assert(is_digit(numeral[0]));
    assert(row[0] == numeral[0]);
    lemma_not_blank(row);
}

proof fn lemma_body_oracles(oracles: Seq<u128>, count: int)
    requires
        0 <= count <= oracles.len() <= u32::MAX,
    ensures
        oracles_of(body_rows(oracles).take(count), 0, 1) == Ok::<Seq<u128>, ProvenanceProblem>(
            oracles.take(count),
        ),
    decreases count,
{
    let rows = body_rows(oracles).take(count);
    if count == 0 {
        assert(rows =~= Seq::empty());
        assert(oracles.take(0) =~= Seq::empty());
    } else {
        lemma_body_oracles(oracles, count - 1);
        lemma_body_row(oracles, count - 1);
        assert(rows.drop_last() =~= body_rows(oracles).take(count - 1));
        assert(oracles.take(count - 1).push(oracles[count - 1]) =~= oracles.take(count));
    }
}

/// The header's line without its line feed.
spec fn header_line(identity: Seq<char>, cards: nat, body_hash: Seq<char>) -> Seq<char> {
    header_of(identity, cards, body_hash).drop_last()
}

/// The header names the two columns of the table.
proof fn lemma_header_columns(identity: Seq<char>, cards: nat, body_hash: Seq<char>)
    requires
        lacks(header_line(identity, cards, body_hash), '\n'),
    ensures
        place_of(split(header_line(identity, cards, body_hash), '\t'), "#id"@) == Some(0int),
        place_of(split(header_line(identity, cards, body_hash), '\t'), "oracle_id"@) == Some(1int),
{
    let line = header_line(identity, cards, body_hash);
    let columns = split(line, '\t');
    let front = "#id\toracle_id\tmetadata: v=1 kind=provenance-oracle-ids catalog_identity="@;
    reveal_strlit("#id\toracle_id\tmetadata: v=1 kind=provenance-oracle-ids catalog_identity=");
    reveal_strlit("#id");
    reveal_strlit("oracle_id");
    reveal_strlit(" cards=");
    reveal_strlit(" body_sha256=");
    reveal_strlit("\n");
    assert(forall|j: int| 0 <= j < front.len() ==> line[j] == front[j]);
    lemma_find_char_is(line, '\t', 3);
    let later = line.skip(4);
    assert(line.take(3) =~= "#id"@);
    assert(forall|j: int| 0 <= j < 9 ==> later[j] == front[j + 4]);
    lemma_find_char_is(later, '\t', 9);
    assert(later.take(9) =~= "oracle_id"@);
    let rest = split(later.skip(10), '\t');
    assert(split(later, '\t') =~= seq!["oracle_id"@] + rest);
    assert(columns =~= seq!["#id"@] + split(later, '\t'));
    assert(columns[0] == "#id"@);
    assert(columns[1] == "oracle_id"@);
    lemma_place_of(columns, "#id"@);
    lemma_place_of(columns, "oracle_id"@);
    assert("#id"@[0] != "oracle_id"@[0]);
}

/// A provenance table reads as the Oracle IDs that it was made from.
pub proof fn law_provenance_reads_back(identity: Seq<char>, oracles: Seq<u128>)
    requires
        is_identity(identity),
        0 < oracles.len() <= u32::MAX,
    ensures
        provenance_of(document_of(identity, oracles)) == Ok::<Seq<u128>, ProvenanceProblem>(
            oracles,
        ),
{
    let body = body_of(oracles);
    let hash = hex(sha256(encode_utf8(body)));
    let header = header_of(identity, oracles.len(), hash);
    let line = header_line(identity, oracles.len(), hash);
    let document = document_of(identity, oracles);
    law_provenance_vouches_for_its_rows(identity, oracles);
    let end = header.len() - 1;
    lemma_find_char(document, '\n');
    reveal_strlit("\n");
    assert(document.take(end) =~= line);
    assert(lacks(line, '\n')) by {
        assert forall|j: int| 0 <= j < line.len() implies #[trigger] line[j] != '\n' by {
            assert(line[j] == document[j]);
        }
    }
    assert(line.last() != '\r') by {
        lemma_hex(sha256(encode_utf8(body)));
        lemma_header_end(identity, oracles.len(), hash);
    }
    assert forall|i: int| 0 <= i < body_rows(oracles).len() implies fits_line(
        #[trigger] body_rows(oracles)[i],
    ) by {
        lemma_body_row(oracles, i);
    }
    lemma_lines_unlines(body_rows(oracles));
    let rows = lines(document);
    assert(rows =~= seq![line] + body_rows(oracles));
    assert(rows.drop_first() =~= body_rows(oracles));
    lemma_header_columns(identity, oracles.len(), hash);
    lemma_body_oracles(oracles, oracles.len() as int);
    assert(body_rows(oracles).take(oracles.len() as int) =~= body_rows(oracles));
    assert(oracles.take(oracles.len() as int) =~= oracles);
}

proof fn lemma_header_end(identity: Seq<char>, cards: nat, body_hash: Seq<char>)
    requires
        forall|i: int| 0 <= i < body_hash.len() ==> is_hex_digit(#[trigger] body_hash[i]),
    ensures
        header_line(identity, cards, body_hash).len() > 0,
        header_line(identity, cards, body_hash).last() != '\r',
{
    reveal_strlit(" body_sha256=");
    reveal_strlit("\n");
    let line = header_line(identity, cards, body_hash);
    if body_hash.len() > 0 {
        assert(line.last() == body_hash.last());
        assert(is_hex_digit(body_hash[body_hash.len() - 1]));
    } else {
        assert(line.last() == " body_sha256="@.last());
    }
}

} // verus!
