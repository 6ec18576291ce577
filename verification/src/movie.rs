//! The catalog record that every component reads, and how a catalog in
//! comma-separated text becomes a list of records.

use vstd::prelude::*;
use crate::text::{chars_of, parse_number, is_number, decimal_value};

verus! {

/// One catalog entry. A text attribute that is unknown is the empty string,
/// and an unknown release year is 0.
#[derive(Debug, Clone)]
pub struct Movie {
    pub title: String,
    pub movie_type: String,
    pub director: String,
    pub country: String,
    pub release_year: u32,
    pub rating: String,
    pub listed_in: String,
}

/// Column of the title type in a catalog row.
pub const TYPE_COLUMN: usize = 1;

/// Column of the title in a catalog row.
pub const TITLE_COLUMN: usize = 2;

/// Column of the director in a catalog row.
pub const DIRECTOR_COLUMN: usize = 3;

/// Column of the country list in a catalog row.
pub const COUNTRY_COLUMN: usize = 5;

/// Column of the release year in a catalog row.
pub const YEAR_COLUMN: usize = 7;

/// Column of the audience rating in a catalog row.
pub const RATING_COLUMN: usize = 8;

/// Column of the genre list in a catalog row.
pub const GENRES_COLUMN: usize = 10;

/// What a catalog in comma-separated text holds, record by record and
/// without the header: for a record that was read, its fields, each trimmed;
/// for a record that was rejected, the report of the fault. Records need not
/// have the same number of fields.
pub uninterp spec fn csv_records(data: Seq<u8>) -> Seq<Result<Seq<Seq<char>>, Seq<char>>>;

/// The character sequences held by a row of strings.
pub open spec fn field_views(fields: Seq<String>) -> Seq<Seq<char>> {
    Seq::new(fields.len(), |c: int| fields[c]@)
}

/// The character sequences held by a table of strings.
pub open spec fn row_views(rows: Seq<Vec<String>>) -> Seq<Seq<Seq<char>>> {
    Seq::new(rows.len(), |r: int| field_views(rows[r]@))
}

/// The model of one record: its fields, or the report of its fault.
pub open spec fn record_view(record: Result<Vec<String>, String>) -> Result<
    Seq<Seq<char>>,
    Seq<char>,
> {
    match record {
        Ok(fields) => Ok(field_views(fields@)),
        Err(report) => Err(report@),
    }
}

/// The model of a list of records.
pub open spec fn record_views(records: Seq<Result<Vec<String>, String>>) -> Seq<
    Result<Seq<Seq<char>>, Seq<char>>,
> {
    Seq::new(records.len(), |r: int| record_view(records[r]))
}

/// The rows of the records that were read, in order: a rejected record is
/// skipped and the rest still come.
pub open spec fn accepted_rows(records: Seq<Result<Seq<Seq<char>>, Seq<char>>>) -> Seq<
    Seq<Seq<char>>,
>
    decreases records.len(),
{
    if records.len() == 0 {
        Seq::empty()
    } else {
        match records.last() {
            Ok(row) => accepted_rows(records.drop_last()).push(row),
            Err(_) => accepted_rows(records.drop_last()),
        }
    }
}

/// The reports of the records that were rejected, in order.
pub open spec fn rejections(records: Seq<Result<Seq<Seq<char>>, Seq<char>>>) -> Seq<Seq<char>>
    decreases records.len(),
{
    if records.len() == 0 {
        Seq::empty()
    } else {
        match records.last() {
            Ok(_) => rejections(records.drop_last()),
            Err(report) => rejections(records.drop_last()).push(report),
        }
    }
}

/// The data rows of a catalog in comma-separated text.
pub open spec fn csv_rows(data: Seq<u8>) -> Seq<Seq<Seq<char>>> {
    accepted_rows(csv_records(data))
}

/// Reads `data` with a `csv::Reader` built by `csv::ReaderBuilder` with
/// `flexible(true)` and `trim(Trim::All)`, and hands out what its `records()`
/// iterator yields, one outcome for each record: the fields of a record, or
/// the `Debug` text of the `csv::Error`. The contract only gives the outcome
/// a name; it depends on nothing but the bytes.
#[verifier::external_body]
fn read_records(data: &[u8]) -> (records: Vec<Result<Vec<String>, String>>)
    ensures
        record_views(records@) == csv_records(data@),
{
    let mut reader = csv::ReaderBuilder::new().flexible(true).trim(csv::Trim::All).from_reader(data);
    let mut records: Vec<Result<Vec<String>, String>> = Vec::new();
    for result in reader.records() {
        records.push(match result {
            Ok(record) => Ok(record.iter().map(|field| field.to_string()).collect()),
            Err(error) => Err(format!("{:?}", error)),
        });
    }
    records
}

/// `s` without a leading plus sign.
pub open spec fn unsigned_part(s: Seq<char>) -> Seq<char> {
    if s.len() > 0 && s[0] == '+' {
        s.drop_first()
    } else {
        s
    }
}

/// The year that `s` writes: an optional plus sign and then one or more
/// decimal digits, whose value fits in 32 bits. Anything else is 0, the
/// unknown year.
pub open spec fn year_of(s: Seq<char>) -> u32 {
    let digits = unsigned_part(s);
    if is_number(digits) {
        decimal_value(digits) as u32
    } else {
        0
    }
}

/// The field in column `column` of `row`, or the empty string where the row
/// is too short.
pub open spec fn field_at(row: Seq<Seq<char>>, column: int) -> Seq<char> {
    if 0 <= column < row.len() {
        row[column]
    } else {
        Seq::empty()
    }
}

/// Whether `movie` is the entry that the catalog row `row` describes.
pub open spec fn describes(row: Seq<Seq<char>>, movie: Movie) -> bool {
    &&& movie.title@ == field_at(row, TITLE_COLUMN as int)
    &&& movie.movie_type@ == field_at(row, TYPE_COLUMN as int)
    &&& movie.director@ == field_at(row, DIRECTOR_COLUMN as int)
    &&& movie.country@ == field_at(row, COUNTRY_COLUMN as int)
    &&& movie.release_year == year_of(field_at(row, YEAR_COLUMN as int))
    &&& movie.rating@ == field_at(row, RATING_COLUMN as int)
    &&& movie.listed_in@ == field_at(row, GENRES_COLUMN as int)
}

/// Parses a release year; text that does not write a year gives 0.
pub fn parse_year(text: &str) -> (year: u32)
    ensures
        year == year_of(text@),
{
    let chars = chars_of(text);
    let start: usize = if chars.len() > 0 && chars[0] == '+' {
        1
    } else {
        0
    };
    assert(unsigned_part(text@) =~= chars@.subrange(start as int, chars.len() as int));
    match parse_number(&chars, start, chars.len()) {
        Some(year) => year,
        None => 0,
    }
}

/// The field in column `column` of `fields`, or the empty string where there
/// are fewer fields.
fn column_text(fields: &Vec<String>, column: usize) -> (text: String)
    ensures
        text@ == field_at(field_views(fields@), column as int),
{
    if column < fields.len() {
        fields[column].clone()
    } else {
        String::new()
    }
}

impl Movie {
    /// A copy of this entry, equal to it in every attribute.
    pub fn duplicate(&self) -> (copy: Movie)
        ensures
            copy == *self,
    {
        Movie {
            title: self.title.clone(),
            movie_type: self.movie_type.clone(),
            director: self.director.clone(),
            country: self.country.clone(),
            release_year: self.release_year,
            rating: self.rating.clone(),
            listed_in: self.listed_in.clone(),
        }
    }

    /// The entry that one catalog row describes. Missing columns give empty
    /// attributes, and a year that cannot be read gives the unknown year.
    pub fn from_record(fields: &Vec<String>) -> (movie: Movie)
        ensures
            describes(field_views(fields@), movie),
    {
        let year_text = column_text(fields, YEAR_COLUMN);
        Movie {
            title: column_text(fields, TITLE_COLUMN),
            movie_type: column_text(fields, TYPE_COLUMN),
            director: column_text(fields, DIRECTOR_COLUMN),
            country: column_text(fields, COUNTRY_COLUMN),
            release_year: parse_year(year_text.as_str()),
            rating: column_text(fields, RATING_COLUMN),
            listed_in: column_text(fields, GENRES_COLUMN),
        }
    }

    /// The entries that the rows of a catalog describe, in order.
    pub fn from_rows(rows: &Vec<Vec<String>>) -> (movies: Vec<Movie>)
        ensures
            movies.len() == rows.len(),
            forall|r: int| 0 <= r < rows.len() ==> describes(row_views(rows@)[r], #[trigger] movies[r]),
    {
        let mut movies: Vec<Movie> = Vec::new();
        let mut r: usize = 0;
        while r < rows.len()
            invariant
                r <= rows.len(),
                movies.len() == r,
                forall|a: int| 0 <= a < r ==> describes(row_views(rows@)[a], #[trigger] movies[a]),
            decreases rows.len() - r,
        {
            let movie = Movie::from_record(&rows[r]);
            movies.push(movie);
            r += 1;
        }
        movies
    }

    /// The entries that the records of a catalog describe, in order, and the
    /// reports of the records that were rejected, in order.
    pub fn from_records(records: &Vec<Result<Vec<String>, String>>) -> (out: (
        Vec<Movie>,
        Vec<String>,
    ))
        ensures
            out.0.len() == accepted_rows(record_views(records@)).len(),
            forall|r: int|
                0 <= r < out.0.len() ==> describes(
                    accepted_rows(record_views(records@))[r],
                    #[trigger] out.0[r],
                ),
            field_views(out.1@) == rejections(record_views(records@)),
    {
        let mut movies: Vec<Movie> = Vec::new();
        let mut reports: Vec<String> = Vec::new();
        let ghost all = record_views(records@);
        let mut r: usize = 0;
        assert(all.take(0) =~= Seq::empty());
        assert(field_views(reports@) =~= rejections(all.take(0)));
        while r < records.len()
            invariant
                r <= records.len(),
                all == record_views(records@),
                movies.len() == accepted_rows(all.take(r as int)).len(),
                forall|a: int|
                    0 <= a < movies.len() ==> describes(
                        accepted_rows(all.take(r as int))[a],
                        #[trigger] movies[a],
                    ),
                field_views(reports@) == rejections(all.take(r as int)),
            decreases records.len() - r,
        {
            proof {
                assert(all.take(r as int + 1).drop_last() =~= all.take(r as int));
                assert(all.take(r as int + 1).last() == record_view(records[r as int]));
            }
            match &records[r] {
                Ok(fields) => {
                    let movie = Movie::from_record(fields);
                    movies.push(movie);
                },
                Err(report) => {
                    let ghost before = field_views(reports@);
                    reports.push(report.clone());
                    assert(field_views(reports@) =~= before.push(report@));
                },
            }
            r += 1;
        }
        assert(all.take(r as int) =~= all);
        (movies, reports)
    }

    /// The entries of a catalog given as comma-separated text, one for each
    /// record that could be read, and the reports of the records that could
    /// not.
    pub fn read_with_rejections(data: &[u8]) -> (out: (Vec<Movie>, Vec<String>))
        ensures
            out.0.len() == csv_rows(data@).len(),
            forall|r: int|
                0 <= r < out.0.len() ==> describes(csv_rows(data@)[r], #[trigger] out.0[r]),
            field_views(out.1@) == rejections(csv_records(data@)),
    {
        let records = read_records(data);
        Movie::from_records(&records)
    }

    /// The entries of a catalog given as comma-separated text: one entry for
    /// each record that could be read, in order. A record that could not be
    /// read is skipped.
    pub fn read_and_clean(data: &[u8]) -> (movies: Vec<Movie>)
        ensures
            movies.len() == csv_rows(data@).len(),
            forall|r: int|
                0 <= r < movies.len() ==> describes(csv_rows(data@)[r], #[trigger] movies[r]),
    {
        let (movies, _) = Movie::read_with_rejections(data);
        movies
    }
}

} // verus!
