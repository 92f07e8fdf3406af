//! Finding the record of a named entity in a CSV table, and folding it into a description.
use vstd::prelude::*;
use crate::wrap::{tokens, strings_view, split_words};

verus! {

#[verifier::external_type_specification]
#[verifier::external_body]
pub struct ExCsvError(csv::Error);

/// Whether csv reads the header record of `bytes`.
pub uninterp spec fn csv_header_reads(bytes: Seq<u8>) -> bool;

/// Whether csv reads the header and every record of `bytes`.
pub uninterp spec fn csv_reads(bytes: Seq<u8>) -> bool;

/// The header record that csv reads from `bytes`.
pub uninterp spec fn csv_headers_of(bytes: Seq<u8>) -> Seq<Seq<char>>;

/// The records after the header that csv reads from `bytes`, up to the first one that
/// fails to read.
pub uninterp spec fn csv_records_of(bytes: Seq<u8>) -> Seq<Seq<Seq<char>>>;

/// The lowercase mapping of `s`.
pub uninterp spec fn lower_of(s: Seq<char>) -> Seq<char>;

pub open spec fn rows_view(rows: Seq<Vec<String>>) -> Seq<Seq<Seq<char>>> {
    rows.map_values(|r: Vec<String>| strings_view(r@))
}

/// Relies on csv's `ReaderBuilder` (header row on), `Reader::headers` and
/// `Reader::records`: the header, then the records up to the first that fails to read,
/// with that failure.
#[verifier::external_body]
fn read_table(bytes: &[u8]) -> (r: Result<
    (Vec<String>, Vec<Vec<String>>, Option<csv::Error>),
    csv::Error,
>)
    ensures
        r is Ok <==> csv_header_reads(bytes@),
        r is Err ==> !csv_reads(bytes@),
        r matches Ok((h, rows, fault)) ==> strings_view(h@) == csv_headers_of(bytes@) && rows_view(
            rows@,
        ) == csv_records_of(bytes@) && (fault is None <==> csv_reads(bytes@)),
{
    let mut reader = csv::ReaderBuilder::new().has_headers(true).from_reader(bytes);
    let headers: Vec<String> = reader.headers()?.iter().map(|h| h.to_string()).collect();
    let mut rows: Vec<Vec<String>> = Vec::new();
    for record in reader.records() {
        match record {
            Ok(rec) => rows.push(rec.iter().map(|f| f.to_string()).collect()),
            Err(e) => return Ok((headers, rows, Some(e))),
        }
    }
    Ok((headers, rows, None))
}

/// Relies on `str::to_lowercase`: the result depends on the characters alone.
#[verifier::external_body]
fn lowercase(s: &str) -> (r: String)
    ensures
        r@ == lower_of(s@),
{
    s.to_lowercase()
}

/// `needle` occurs in `hay` as a contiguous run.
pub open spec fn is_infix(needle: Seq<char>, hay: Seq<char>) -> bool {
    exists|i: int|
        0 <= i && i + needle.len() <= hay.len() && #[trigger] hay.subrange(i, i + needle.len())
            == needle
}

/// The characters of `s`.
fn chars_of(s: &str) -> (r: Vec<char>)
    ensures
        r@ == s@,
{
    let n = s.unicode_len();
    let mut out: Vec<char> = Vec::new();
    let mut i: usize = 0;
    while i < n
        invariant
            n == s@.len(),
            i <= n,
            out@ == s@.take(i as int),
        decreases n - i,
    {
        out.push(s.get_char(i));
        proof {
            assert(out@ =~= s@.take(i + 1));
        }
        i = i + 1;
    }
    proof {
        assert(s@.take(n as int) =~= s@);
    }
    out
}

/// A lowercased field holds the lowercased entity name.
pub fn matches_folded(field_lower: &str, key_lower: &str) -> (r: bool)
    ensures
        r == is_infix(key_lower@, field_lower@),
{
    let hay = chars_of(field_lower);
    let needle = chars_of(key_lower);
    let n = hay.len();
    let m = needle.len();
    if m > n {
        return false;
    }
    let mut i: usize = 0;
    while i <= n - m
        invariant
            hay@ == field_lower@,
            needle@ == key_lower@,
            n == hay@.len(),
            m == needle@.len(),
            m <= n,
            i <= n - m + 1,
            forall|j: int| 0 <= j < i ==> #[trigger] hay@.subrange(j, j + m) != needle@,
        decreases n - m + 1 - i,
    {
        let mut k: usize = 0;
        let mut same = true;
        while k < m && same
            invariant
                n == hay@.len(),
                m == needle@.len(),
                i + m <= n,
                k <= m,
                same ==> forall|t: int| 0 <= t < k ==> hay@[i + t] == needle@[t],
                !same ==> hay@.subrange(i as int, i + m) != needle@,
            decreases m - k + if same { 1int } else { 0int },
        {
            if hay[i + k] != needle[k] {
                same = false;
                proof {
                    assert(hay@.subrange(i as int, i + m)[k as int] == hay@[i + k]);
                }
            }
            k = k + 1;
        }
        if same {
            proof {
                assert(hay@.subrange(i as int, i + m) =~= needle@);
            }
            return true;
        }
        if i == n - m {
            proof {
                assert forall|j: int| 0 <= j && j + m <= n implies #[trigger] hay@.subrange(j, j + m)
                    != needle@ by {}
            }
            return false;
        }
        i = i + 1;
    }
    false
}

/// Some field of `row`, lowercased, holds `key` lowercased.
pub open spec fn row_matches(row: Seq<Seq<char>>, key: Seq<char>) -> bool {
    exists|j: int| 0 <= j < row.len() && is_infix(lower_of(key), lower_of(#[trigger] row[j]))
}

/// `fs` with the field `k` set to `v`: the value of the first field named `k` replaced,
/// or the field appended when there is none.
pub open spec fn with_field(fs: Seq<(Seq<char>, Seq<char>)>, k: Seq<char>, v: Seq<char>) -> Seq<
    (Seq<char>, Seq<char>),
>
    decreases fs.len(),
{
    if fs.len() == 0 {
        seq![(k, v)]
    } else if fs[0].0 == k {
        fs.update(0, (k, v))
    } else {
        seq![fs[0]] + with_field(fs.drop_first(), k, v)
    }
}

/// The first `n` header names set to the fields of `row` in column order.
pub open spec fn fields_upto(headers: Seq<Seq<char>>, row: Seq<Seq<char>>, n: nat) -> Seq<
    (Seq<char>, Seq<char>),
>
    decreases n,
{
    if n == 0 {
        seq![]
    } else {
        with_field(fields_upto(headers, row, (n - 1) as nat), headers[n - 1], row[n - 1])
    }
}

/// Header names paired with the fields of `row`, as far as both go; a later column of a
/// name already seen replaces the earlier value.
pub open spec fn record_fields(headers: Seq<Seq<char>>, row: Seq<Seq<char>>) -> Seq<
    (Seq<char>, Seq<char>),
> {
    fields_upto(
        headers,
        row,
        if headers.len() <= row.len() {
            headers.len()
        } else {
            row.len()
        },
    )
}

proof fn lemma_with_field_found(fs: Seq<(Seq<char>, Seq<char>)>, k: Seq<char>, v: Seq<char>, j: int)
    requires
        0 <= j < fs.len(),
        fs[j].0 == k,
        forall|i: int| 0 <= i < j ==> (#[trigger] fs[i]).0 != k,
    ensures
        with_field(fs, k, v) == fs.update(j, (k, v)),
    decreases j,
{
    if j == 0 {
    } else {
        let rest = fs.drop_first();
        assert forall|i: int| 0 <= i < j - 1 implies (#[trigger] rest[i]).0 != k by {
            assert(rest[i] == fs[i + 1]);
        }
        lemma_with_field_found(rest, k, v, j - 1);
        assert(fs[0].0 != k);
        assert(seq![fs[0]] + rest.update(j - 1, (k, v)) =~= fs.update(j, (k, v)));
    }
}

proof fn lemma_with_field_absent(fs: Seq<(Seq<char>, Seq<char>)>, k: Seq<char>, v: Seq<char>)
    requires
        forall|i: int| 0 <= i < fs.len() ==> (#[trigger] fs[i]).0 != k,
    ensures
        with_field(fs, k, v) == fs.push((k, v)),
    decreases fs.len(),
{
    if fs.len() > 0 {
        let rest = fs.drop_first();
        assert forall|i: int| 0 <= i < rest.len() implies (#[trigger] rest[i]).0 != k by {
            assert(rest[i] == fs[i + 1]);
        }
        lemma_with_field_absent(rest, k, v);
        assert(fs[0].0 != k);
        assert(seq![fs[0]] + rest.push((k, v)) =~= fs.push((k, v)));
    }
}

/// The record of one entity: column names paired with its fields, in column order.
#[derive(Debug)]
pub struct CompanyRecord {
    pub business_name: String,
    pub fields: Vec<(String, String)>,
}

pub open spec fn fields_view(fs: Seq<(String, String)>) -> Seq<(Seq<char>, Seq<char>)> {
    fs.map_values(|p: (String, String)| (p.0@, p.1@))
}

/// Sets the field `k` to `v`: replaces the value of the first field named `k`, or appends
/// the field when there is none.
pub fn put_field(fields: &mut Vec<(String, String)>, k: String, v: String)
    ensures
        fields_view(final(fields)@) == with_field(fields_view(old(fields)@), k@, v@),
{
    let ghost fs = fields_view(fields@);
    let ghost kv = k@;
    let ghost vv = v@;
    let mut j: usize = 0;
    while j < fields.len()
        invariant
            fs == fields_view(fields@),
            fs == fields_view(old(fields)@),
            kv == k@,
            vv == v@,
            j <= fields@.len(),
            forall|i: int| 0 <= i < j ==> (#[trigger] fs[i]).0 != kv,
        decreases fields@.len() - j,
    {
        if fields[j].0 == k {
            proof {
                assert(fs[j as int].0 == kv);
                lemma_with_field_found(fs, kv, vv, j as int);
            }
            fields[j] = (k, v);
            proof {
                assert(fields_view(fields@) =~= fs.update(j as int, (kv, vv)));
            }
            return;
        }
        proof {
            assert(fs[j as int].0 == fields@[j as int].0@);
        }
        j = j + 1;
    }
    proof {
        lemma_with_field_absent(fs, kv, vv);
    }
    fields.push((k, v));
    proof {
        assert(fields_view(fields@) =~= fs.push((kv, vv)));
    }
}

/// Why a lookup failed.
#[derive(Debug)]
pub enum LookupError {
    /// The header record could not be read.
    CsvHeaders(csv::Error),
    /// A record before any matching one could not be read.
    CsvRecord(csv::Error),
    /// No record holds the entity name.
    NotFound(String),
}

/// The first row whose fields (lowercased) hold `name` (lowercased), paired with
/// `headers`; `None` when no row does.
pub fn find_in_table(headers: &Vec<String>, rows: &Vec<Vec<String>>, name: &str) -> (r: Option<
    CompanyRecord,
>)
    ensures
        r matches Some(rec) ==> exists|i: int|
            0 <= i < rows@.len() && row_matches(strings_view(rows@[i]@), name@) && (forall|k: int|
                0 <= k < i ==> !row_matches(strings_view(#[trigger] rows@[k]@), name@))
                && fields_view(rec.fields@) == record_fields(strings_view(headers@), strings_view(rows@[i]@))
                && rec.business_name@ == name@,
        r is None ==> forall|k: int|
            0 <= k < rows@.len() ==> !row_matches(strings_view(#[trigger] rows@[k]@), name@),
{
    let key = lowercase(name);
    let mut i: usize = 0;
    while i < rows.len()
        invariant
            key@ == lower_of(name@),
            i <= rows@.len(),
            forall|k: int| 0 <= k < i ==> !row_matches(strings_view(#[trigger] rows@[k]@), name@),
        decreases rows@.len() - i,
    {
        let row = &rows[i];
        let ghost rv = strings_view(row@);
        let mut j: usize = 0;
        let mut found = false;
        while j < row.len()
            invariant
                key@ == lower_of(name@),
                rv == strings_view(row@),
                j <= row@.len(),
                found ==> row_matches(rv, name@),
                !found ==> forall|m: int|
                    0 <= m < j ==> !is_infix(lower_of(name@), lower_of(#[trigger] rv[m])),
            decreases row@.len() - j,
        {
            let folded = lowercase(row[j].as_str());
            if matches_folded(folded.as_str(), key.as_str()) {
                found = true;
                proof {
                    assert(rv[j as int] == row@[j as int]@);
                    assert(is_infix(lower_of(name@), lower_of(rv[j as int])));
                }
            }
            j = j + 1;
        }
        if found {
            let n = if headers.len() <= row.len() {
                headers.len()
            } else {
                row.len()
            };
            let ghost hv = strings_view(headers@);
            let mut fields: Vec<(String, String)> = Vec::new();
            let mut m: usize = 0;
            while m < n
                invariant
                    n <= headers@.len(),
                    n <= row@.len(),
                    n == (if hv.len() <= rv.len() { hv.len() } else { rv.len() }),
                    m <= n,
                    hv == strings_view(headers@),
                    rv == strings_view(row@),
                    fields_view(fields@) == fields_upto(hv, rv, m as nat),
                decreases n - m,
            {
                put_field(&mut fields, headers[m].clone(), row[m].clone());
                m = m + 1;
            }
            return Some(CompanyRecord { business_name: String::from_str(name), fields });
        }
        proof {
            assert(!row_matches(rv, name@));
        }
        i = i + 1;
    }
    None
}

/// Reads the CSV in `bytes` and returns the record of the first row with a field that
/// holds `name`, ignoring case. Rows are searched as they are read: a row that fails to read
/// fails the lookup only when no row before it matches.
pub fn find_record(bytes: &[u8], name: &str) -> (r: Result<CompanyRecord, LookupError>)
    ensures
        r matches Ok(rec) ==> {
            let rows = csv_records_of(bytes@);
            &&& csv_header_reads(bytes@)
            &&& rec.business_name@ == name@
            &&& exists|i: int|
                0 <= i < rows.len() && row_matches(rows[i], name@) && (forall|k: int|
                    0 <= k < i ==> !row_matches(#[trigger] rows[k], name@)) && fields_view(
                    rec.fields@,
                ) == record_fields(csv_headers_of(bytes@), rows[i])
        },
        (r matches Err(LookupError::CsvHeaders(_))) <==> !csv_header_reads(bytes@),
        r matches Err(LookupError::CsvRecord(_)) ==> csv_header_reads(bytes@) && !csv_reads(
            bytes@,
        ) && forall|k: int|
            0 <= k < csv_records_of(bytes@).len() ==> !row_matches(
                #[trigger] csv_records_of(bytes@)[k],
                name@,
            ),
        r matches Err(LookupError::NotFound(n)) ==> n@ == name@ && csv_reads(bytes@) && forall|
            k: int,
        |
            0 <= k < csv_records_of(bytes@).len() ==> !row_matches(
                #[trigger] csv_records_of(bytes@)[k],
                name@,
            ),
        csv_reads(bytes@) ==> !(r matches Err(LookupError::CsvHeaders(_))) && !(r matches Err(
            LookupError::CsvRecord(_),
        )),
{
    match read_table(bytes) {
        Err(e) => Err(LookupError::CsvHeaders(e)),
        Ok((headers, rows, fault)) => {
            let ghost recs = csv_records_of(bytes@);
            proof {
                assert(rows_view(rows@).len() == rows@.len());
                assert forall|k: int| 0 <= k < rows@.len() implies strings_view(rows@[k]@)
                    == recs[k] by {
                    assert(rows_view(rows@)[k] == strings_view(rows@[k]@));
                }
            }
            match find_in_table(&headers, &rows, name) {
                Some(rec) => {
                    proof {
                        let i = choose|i: int|
                            0 <= i < rows@.len() && row_matches(strings_view(rows@[i]@), name@)
                                && (forall|k: int|
                                0 <= k < i ==> !row_matches(strings_view(#[trigger] rows@[k]@), name@))
                                && fields_view(rec.fields@) == record_fields(
                                strings_view(headers@),
                                strings_view(rows@[i]@),
                            ) && rec.business_name@ == name@;
                        assert(recs[i] == strings_view(rows@[i]@));
                        assert forall|k: int| 0 <= k < i implies !row_matches(#[trigger] recs[k], name@) by {
                            assert(recs[k] == strings_view(rows@[k]@));
                        }
                    }
                    Ok(rec)
                },
                None => match fault {
                    Some(e) => Err(LookupError::CsvRecord(e)),
                    None => Err(LookupError::NotFound(String::from_str(name))),
                },
            }
        },
    }
}

/// `"{key}: {value}"` for each field whose value holds a word, one per line.
pub open spec fn describe_fields(fs: Seq<(Seq<char>, Seq<char>)>) -> Seq<char>
    decreases fs.len(),
{
    if fs.len() == 0 {
        seq![]
    } else {
        let prev = describe_fields(fs.drop_last());
        let (k, v) = fs.last();
        if tokens(v).len() == 0 {
            prev
        } else if prev.len() == 0 {
            k + ": "@ + v
        } else {
            prev + "\n"@ + k + ": "@ + v
        }
    }
}

/// The description of a record: one `"{key}: {value}"` line per field with a non-blank
/// value, in column order.
pub fn describe_record(rec: &CompanyRecord) -> (r: String)
    ensures
        r@ == describe_fields(fields_view(rec.fields@)),
{
    let ghost fs = fields_view(rec.fields@);
    let mut out = String::new();
    let mut i: usize = 0;
    while i < rec.fields.len()
        invariant
            fs == fields_view(rec.fields@),
            i <= rec.fields@.len(),
            out@ == describe_fields(fs.take(i as int)),
        decreases rec.fields@.len() - i,
    {
        let (k, v) = &rec.fields[i];
        proof {
            assert(fs.take(i + 1).drop_last() =~= fs.take(i as int));
            assert(fs.take(i + 1).last() == (k@, v@));
        }
        let words = split_words(v.as_str());
        if words.len() != 0 {
            if out.as_str().unicode_len() == 0 {
                out = k.clone().concat(": ").concat(v.as_str());
            } else {
                out = out.concat("\n").concat(k.as_str()).concat(": ").concat(v.as_str());
            }
        }
        proof {
            assert(strings_view(words@).len() == words@.len());
        }
        i = i + 1;
    }
    proof {
        assert(fs.take(rec.fields@.len() as int) =~= fs);
    }
    out
}

/// At most the first `limit` characters of `s`.
pub fn truncate_chars(s: &str, limit: usize) -> (r: String)
    ensures
        r@ == s@.take(if s@.len() <= limit { s@.len() as int } else { limit as int }),
{
    let n = s.unicode_len();
    let m = if n <= limit {
        n
    } else {
        limit
    };
    String::from_str(s.substring_char(0, m))
}

} // verus!
