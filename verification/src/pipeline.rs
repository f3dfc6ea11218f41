//! The ingestion, retrieval and deletion pipeline.
//!
//! The functions here decide everything about an upload — validation,
//! summarization, recording — over plain values. Text extraction is outside
//! work the surrounding application performs (the extraction library can
//! abort on hostile input, so the call is made where that can be contained);
//! its outcome is handed in as an argument, and every contract states what
//! is decided for each value of it. The application also performs the file
//! writes and deletes these decisions call for: after a successful `ingest`
//! it writes the content to the blob path derived from the new record's
//! identifier, and after a successful `delete` it removes that file, so that
//! a blob file exists exactly for the records the store holds.

use crate::store::{contains_id, first_index_of, DocumentRecord, Store};
use crate::summarize::{advanced_summarize, ingest_options, summarize_spec, SummaryOptions};
use crate::text::{
    chars_of, count_ws_tokens, lower_of, lowercase_chars, paragraphs_of, split_paragraphs,
    split_ws,
};
use crate::DocError;
use vstd::prelude::*;
use vstd::string::StringExecFns;

verus! {

// ---------------------------------------------------------------------------
// Outside collaborators, taken on trust
// ---------------------------------------------------------------------------

/// Relies on uuid::Uuid::new_v4 and Uuid's hyphenated display form: a fresh
/// random version-4 identifier, rendered as 36 characters.
#[verifier::external_body]
fn new_id() -> (r: String)
    ensures
        r@.len() == 36,
{
    uuid::Uuid::new_v4().to_string()
}

/// One decimal digit character.
pub open spec fn is_dec_digit(c: char) -> bool {
    ||| c == '0'
    ||| c == '1'
    ||| c == '2'
    ||| c == '3'
    ||| c == '4'
    ||| c == '5'
    ||| c == '6'
    ||| c == '7'
    ||| c == '8'
    ||| c == '9'
}

/// The shape `YYYY-MM-DD HH:MM:SS` as chrono renders it for every clock
/// value: a year of at least four characters (zero-padded digits, with a
/// leading sign only for years outside 0..=9999, so a 19-character timestamp
/// is digits and separators throughout), then month, day, hour, minute and
/// second of exactly two zero-padded digits each, with `-`, a space and `:`
/// between them.
pub open spec fn timestamp_shape(s: Seq<char>) -> bool {
    let y = s.len() - 15;
    &&& s.len() >= 19
    &&& (is_dec_digit(s[0]) || s[0] == '+' || s[0] == '-')
    &&& forall|k: int| 1 <= k < y ==> is_dec_digit(s[k])
    &&& (s.len() == 19 ==> is_dec_digit(s[0]))
    &&& s[y] == '-'
    &&& is_dec_digit(s[y + 1])
    &&& is_dec_digit(s[y + 2])
    &&& s[y + 3] == '-'
    &&& is_dec_digit(s[y + 4])
    &&& is_dec_digit(s[y + 5])
    &&& s[y + 6] == ' '
    &&& is_dec_digit(s[y + 7])
    &&& is_dec_digit(s[y + 8])
    &&& s[y + 9] == ':'
    &&& is_dec_digit(s[y + 10])
    &&& is_dec_digit(s[y + 11])
    &&& s[y + 12] == ':'
    &&& is_dec_digit(s[y + 13])
    &&& is_dec_digit(s[y + 14])
}

/// Relies on chrono::Local::now and chrono's formatter for
/// `%Y-%m-%d %H:%M:%S`: the current local time. The value depends on the
/// clock; what holds of every outcome is the rendered shape — the year is
/// four zero-padded digits (more, with a sign, only outside years
/// 0..=9999), every other field exactly two zero-padded digits.
#[verifier::external_body]
fn now_timestamp() -> (r: String)
    ensures
        timestamp_shape(r@),
{
    chrono::Local::now().format("%Y-%m-%d %H:%M:%S").to_string()
}

// ---------------------------------------------------------------------------
// Validation
// ---------------------------------------------------------------------------

/// Whether `filename` carries a case-insensitive `.pdf` suffix.
pub open spec fn pdf_name(filename: Seq<char>) -> bool {
    let lower = lower_of(filename);
    lower.len() >= 4 && lower.subrange(lower.len() - 4, lower.len() as int) == ".pdf"@
}

/// Whether an upload is acceptable: a `.pdf` filename and non-empty content.
pub open spec fn valid_upload(filename: Seq<char>, content: Seq<u8>) -> bool {
    pdf_name(filename) && content.len() > 0
}

/// Decide whether `filename` carries a case-insensitive `.pdf` suffix.
pub fn is_pdf_filename(filename: &str) -> (r: bool)
    ensures
        r == pdf_name(filename@),
{
    let chars: Vec<char> = chars_of(filename);
    let lowered: Vec<char> = lowercase_chars(&chars);
    proof {
        reveal_strlit(".pdf");
    }
    if lowered.len() < 4 {
        return false;
    }
    let n: usize = lowered.len();
    let r: bool = lowered[n - 4] == '.' && lowered[n - 3] == 'p' && lowered[n - 2] == 'd'
        && lowered[n - 1] == 'f';
    proof {
        let lower = lower_of(filename@);
        let suffix = lower.subrange(lower.len() - 4, lower.len() as int);
        if r {
            assert(suffix =~= ".pdf"@);
        } else {
            if suffix == ".pdf"@ {
                assert(suffix[0] == lower[lower.len() - 4]);
                assert(suffix[1] == lower[lower.len() - 3]);
                assert(suffix[2] == lower[lower.len() - 2]);
                assert(suffix[3] == lower[lower.len() - 1]);
                assert(false);
            }
        }
    }
    r
}

/// The on-disk blob name derived from a record identifier.
pub open spec fn blob_name_of(id: Seq<char>) -> Seq<char> {
    id + ".pdf"@
}

/// The on-disk blob name for `id`.
pub fn blob_name(id: &str) -> (r: String)
    ensures
        r@ == blob_name_of(id@),
{
    let mut s: String = id.to_owned();
    s.append(".pdf");
    s
}

// ---------------------------------------------------------------------------
// Ingestion
// ---------------------------------------------------------------------------

/// Ingest an upload under a caller-supplied identifier and timestamp, given
/// the outcome of extracting `content`'s text: validate the upload,
/// summarize the text with the ingestion defaults, and record it. Exactly
/// one record, carrying `id`, is appended on success; on any failure the
/// store is unchanged.
pub fn ingest_with_id(
    store: &mut Store,
    filename: &str,
    content: &Vec<u8>,
    extraction: Option<String>,
    id: String,
    timestamp: String,
) -> (r: Result<DocumentRecord, DocError>)
    requires
        old(store).wf(),
    ensures
        final(store).wf(),
        match r {
            Ok(rec) => {
                &&& valid_upload(filename@, content@)
                &&& extraction is Some
                &&& !contains_id(old(store)@, id@)
                &&& rec@.id == id@
                &&& rec@.filename == filename@
                &&& rec@.timestamp == timestamp@
                &&& rec@.word_count == split_ws((extraction->0)@).len()
                &&& rec@.summary == summarize_spec((extraction->0)@, ingest_options())
                &&& final(store)@ == old(store)@.push(rec@)
            },
            Err(e) => {
                &&& final(store)@ == old(store)@
                &&& (e == DocError::InvalidInput || e == DocError::ExtractionFailed || e
                    == DocError::DuplicateId)
                &&& (e == DocError::InvalidInput <==> !valid_upload(filename@, content@))
                &&& (e == DocError::ExtractionFailed <==> valid_upload(filename@, content@)
                    && extraction is None)
                &&& (e == DocError::DuplicateId <==> valid_upload(filename@, content@)
                    && extraction is Some && contains_id(old(store)@, id@))
            },
        },
{
    if !is_pdf_filename(filename) || content.len() == 0 {
        return Err(DocError::InvalidInput);
    }
    let text: String = match extraction {
        Some(t) => t,
        None => {
            return Err(DocError::ExtractionFailed);
        },
    };
    let options: SummaryOptions = SummaryOptions::ingest_defaults();
    let summary: String = advanced_summarize(text.as_str(), &options);
    let text_chars: Vec<char> = chars_of(text.as_str());
    let word_count: usize = count_ws_tokens(&text_chars);
    let record = DocumentRecord {
        id,
        filename: filename.to_owned(),
        timestamp,
        word_count,
        summary,
    };
    let returned: DocumentRecord = record.clone_record();
    match store.insert(record) {
        Ok(()) => Ok(returned),
        Err(_) => Err(DocError::DuplicateId),
    }
}

/// Ingest an upload, given the outcome of extracting `content`'s text:
/// validate it, give it a fresh identifier, summarize the text with the
/// ingestion defaults, and record it with the current time. On success the
/// caller persists `content` under the blob name of the returned record's
/// identifier; on failure nothing is persisted and the store is unchanged.
pub fn ingest(store: &mut Store, filename: &str, content: &Vec<u8>, extraction: Option<String>) -> (r:
    Result<DocumentRecord, DocError>)
    requires
        old(store).wf(),
    ensures
        final(store).wf(),
        match r {
            Ok(rec) => {
                &&& valid_upload(filename@, content@)
                &&& extraction is Some
                &&& !contains_id(old(store)@, rec@.id)
                &&& rec@.id.len() == 36
                &&& rec@.filename == filename@
                &&& timestamp_shape(rec@.timestamp)
                &&& rec@.word_count == split_ws((extraction->0)@).len()
                &&& rec@.summary == summarize_spec((extraction->0)@, ingest_options())
                &&& final(store)@ == old(store)@.push(rec@)
            },
            Err(e) => {
                &&& final(store)@ == old(store)@
                &&& (e == DocError::InvalidInput || e == DocError::ExtractionFailed || e
                    == DocError::DuplicateId)
                &&& (e == DocError::InvalidInput <==> !valid_upload(filename@, content@))
                &&& (e == DocError::ExtractionFailed <==> valid_upload(filename@, content@)
                    && extraction is None)
                &&& (e == DocError::DuplicateId ==> valid_upload(filename@, content@)
                    && extraction is Some)
            },
        },
{
    let id: String = new_id();
    let timestamp: String = now_timestamp();
    ingest_with_id(store, filename, content, extraction, id, timestamp)
}

// ---------------------------------------------------------------------------
// Retrieval
// ---------------------------------------------------------------------------

/// A record together with a summary freshly computed under caller-supplied
/// options.
pub struct RetrievedSummary {
    pub record: DocumentRecord,
    pub summary: String,
    pub word_count: usize,
}

/// Recompute the summary of the stored document `id` under `options`, given
/// the outcome of extracting its blob's text. The caller reads the blob
/// file of `id` and extracts it; a missing blob is its `NotFound`.
pub fn retrieve(store: &Store, id: &str, extraction: Option<String>, options: &SummaryOptions) -> (r:
    Result<RetrievedSummary, DocError>)
    ensures
        match r {
            Ok(rs) => {
                &&& contains_id(store@, id@)
                &&& extraction is Some
                &&& rs.record@ == store@[first_index_of(store@, id@)]
                &&& rs.summary@ == summarize_spec((extraction->0)@, *options)
                &&& rs.word_count == split_ws((extraction->0)@).len()
            },
            Err(e) => {
                &&& (e == DocError::NotFound || e == DocError::ExtractionFailed)
                &&& (e == DocError::NotFound <==> !contains_id(store@, id@))
                &&& (e == DocError::ExtractionFailed <==> contains_id(store@, id@) && extraction
                    is None)
            },
        },
{
    let record: DocumentRecord = match store.get(id) {
        Some(rec) => rec,
        None => {
            return Err(DocError::NotFound);
        },
    };
    let text: String = match extraction {
        Some(t) => t,
        None => {
            return Err(DocError::ExtractionFailed);
        },
    };
    let summary: String = advanced_summarize(text.as_str(), options);
    let text_chars: Vec<char> = chars_of(text.as_str());
    let word_count: usize = count_ws_tokens(&text_chars);
    Ok(RetrievedSummary { record, summary, word_count })
}

/// A record together with its full extracted text, split into paragraphs.
pub struct DocumentView {
    pub record: DocumentRecord,
    pub paragraphs: Vec<String>,
    pub word_count: usize,
}

/// The stored document `id` with its text split at blank-line boundaries
/// into non-blank paragraphs, given the outcome of extracting its blob's
/// text. The caller reads the blob file of `id` and extracts it; a missing
/// blob is its `NotFound`.
pub fn view_full_text(store: &Store, id: &str, extraction: Option<String>) -> (r: Result<
    DocumentView,
    DocError,
>)
    ensures
        match r {
            Ok(dv) => {
                &&& contains_id(store@, id@)
                &&& extraction is Some
                &&& dv.record@ == store@[first_index_of(store@, id@)]
                &&& dv.paragraphs.deep_view() == paragraphs_of((extraction->0)@)
                &&& dv.word_count == split_ws((extraction->0)@).len()
            },
            Err(e) => {
                &&& (e == DocError::NotFound || e == DocError::ExtractionFailed)
                &&& (e == DocError::NotFound <==> !contains_id(store@, id@))
                &&& (e == DocError::ExtractionFailed <==> contains_id(store@, id@) && extraction
                    is None)
            },
        },
{
    let record: DocumentRecord = match store.get(id) {
        Some(rec) => rec,
        None => {
            return Err(DocError::NotFound);
        },
    };
    let text: String = match extraction {
        Some(t) => t,
        None => {
            return Err(DocError::ExtractionFailed);
        },
    };
    let text_chars: Vec<char> = chars_of(text.as_str());
    let paragraphs: Vec<String> = split_paragraphs(&text_chars);
    let word_count: usize = count_ws_tokens(&text_chars);
    Ok(DocumentView { record, paragraphs, word_count })
}

// ---------------------------------------------------------------------------
// Deletion
// ---------------------------------------------------------------------------

/// Remove the record of `id` from the store and return it. On success the
/// caller deletes the blob file of `id` (restoring the record if that file
/// deletion fails, to keep the store and the blob directory matched).
pub fn delete(store: &mut Store, id: &str) -> (r: Result<DocumentRecord, DocError>)
    requires
        old(store).wf(),
    ensures
        final(store).wf(),
        match r {
            Ok(rec) => {
                &&& contains_id(old(store)@, id@)
                &&& rec@ == old(store)@[first_index_of(old(store)@, id@)]
                &&& rec@.id == id@
                &&& final(store)@ == old(store)@.remove(first_index_of(old(store)@, id@))
            },
            Err(e) => {
                &&& e == DocError::NotFound
                &&& !contains_id(old(store)@, id@)
                &&& final(store)@ == old(store)@
            },
        },
{
    match store.remove(id) {
        Some(rec) => Ok(rec),
        None => Err(DocError::NotFound),
    }
}

} // verus!
