//! A loaded snapshot: the manifest's entries and the configuration blob, and
//! the translation of a manifest offset into the blob.
use vstd::prelude::*;
use vstd::slice::slice_subrange;
use crate::manifest::{
    entries_upto, entries_view, is_comment, is_domain_index, line_entry, lines_view, read_manifest,
};
use crate::strokes::{outcome_of, record_outcome, RecordOutcome, Stroke, StrokeError};

verus! {

/// The paths of the configuration blob and of the manifest.
pub struct Files {
    pub cfg_file: String,
    pub list_file: String,
}

/// One load of the manifest and the blob.
pub struct CfgData {
    /// The manifest entries in the domain, sorted by raw offset.
    pub cfg_items: Vec<(String, i64)>,
    /// The whole blob.
    pub cfg_contents: Vec<u8>,
}

/// A manifest line that is neither a comment nor `name,offset`.
#[derive(Clone, Copy, Debug, PartialEq, Eq, Structural)]
pub struct ManifestFormatError {
    /// Its index among the lines, from zero.
    pub line: usize,
}

/// Builds a snapshot from the manifest's lines and the blob's bytes. Fails
/// with the first line that is neither a comment nor a well-formed entry.
pub fn load_cfg_data(list_lines: &Vec<String>, cfg_contents: Vec<u8>) -> (r: Result<
    CfgData,
    ManifestFormatError,
>)
    ensures
        match r {
            Ok(d) => d.cfg_contents@ == cfg_contents@ && (entries_upto(
                lines_view(list_lines@),
                list_lines@.len() as int,
            ) matches Some(es) && is_domain_index(es, entries_view(d.cfg_items@))),
            Err(e) => e.line < list_lines@.len() && entries_upto(
                lines_view(list_lines@),
                e.line as int,
            ) is Some && !is_comment(list_lines@[e.line as int]@) && line_entry(
                list_lines@[e.line as int]@,
            ) is None,
        },
{
    match read_manifest(list_lines) {
        Ok(cfg_items) => Ok(CfgData { cfg_items, cfg_contents }),
        Err(line) => Err(ManifestFormatError { line }),
    }
}

/// The length of the blob's header, which holds no stroke records.
pub const HEADER_LEN: i64 = 0x7c60;

/// The raw offset of the first stroke record, which stands right after the
/// header.
pub const FIRST_RECORD: i64 = 558891009;

/// The position in the blob of a raw manifest offset.
pub open spec fn blob_offset(raw: i64) -> int {
    raw + HEADER_LEN - FIRST_RECORD
}

/// The bytes that the entry at `offset` spans: up to the next entry's offset,
/// or to the end of the blob; `None` where they do not lie within the blob.
pub open spec fn entry_range(len: int, offset: i64, offset_next: Option<i64>) -> Option<(int, int)> {
    let start = blob_offset(offset);
    let end = match offset_next {
        Some(n) => blob_offset(n),
        None => len,
    };
    if 0 <= start <= end <= len {
        Some((start, end))
    } else {
        None
    }
}

/// The number of line feeds in `s`.
pub open spec fn newline_count(s: Seq<u8>) -> nat
    decreases s.len(),
{
    if s.len() == 0 {
        0
    } else {
        newline_count(s.drop_last()) + if s.last() == 10 { 1nat } else { 0nat }
    }
}

fn to_blob(raw: i64, len: usize) -> (r: Option<usize>)
    ensures
        match r {
            Some(p) => p == blob_offset(raw) && p <= len,
            None => !(0 <= blob_offset(raw) <= len),
        },
{
    let p = raw as i128 + HEADER_LEN as i128 - FIRST_RECORD as i128;
    if p < 0 || p > len as i128 {
        None
    } else {
        Some(p as usize)
    }
}

/// The line, counted from one, on which the entry at raw offset `offset`
/// starts in the blob; `None` where the offset lies outside the blob (or the
/// count would not fit in `usize`).
pub fn line_number_of(cfg_contents: &[u8], offset: i64) -> (r: Option<usize>)
    ensures
        match r {
            Some(n) => 0 <= blob_offset(offset) <= cfg_contents@.len() && n == newline_count(
                cfg_contents@.subrange(0, blob_offset(offset)),
            ) + 1,
            None => !(0 <= blob_offset(offset) <= cfg_contents@.len()) || newline_count(
                cfg_contents@.subrange(0, blob_offset(offset)),
            ) + 1 > usize::MAX,
        },
{
    let end = match to_blob(offset, cfg_contents.len()) {
        None => return None,
        Some(end) => end,
    };
    let mut count: usize = 0;
    let mut i: usize = 0;
    while i < end
        invariant
            i <= end <= cfg_contents@.len(),
            count <= i,
            count == newline_count(cfg_contents@.subrange(0, i as int)),
        decreases end - i,
    {
        assert(cfg_contents@.subrange(0, i + 1).drop_last() =~= cfg_contents@.subrange(0, i as int));
        if cfg_contents[i] == 10 {
            count = count + 1;
        }
        i = i + 1;
    }
    count.checked_add(1)
}

/// Reads the stroke of the manifest entry at raw offset `offset`, whose bytes
/// run up to the next entry's offset `offset_next`, or to the end of the blob.
pub fn parse_stroke(cfg_contents: &[u8], offset: i64, offset_next: Option<i64>) -> (r: Result<
    Option<Stroke>,
    StrokeError,
>)
    ensures
        outcome_of(r) == match entry_range(cfg_contents@.len() as int, offset, offset_next) {
            None => RecordOutcome::OutOfRange,
            Some((start, end)) => record_outcome(cfg_contents@.subrange(start, end)),
        },
{
    let start = match to_blob(offset, cfg_contents.len()) {
        None => return Err(StrokeError::OutOfRange),
        Some(s) => s,
    };
    let end = match offset_next {
        None => cfg_contents.len(),
        Some(n) => match to_blob(n, cfg_contents.len()) {
            None => return Err(StrokeError::OutOfRange),
            Some(e) => e,
        },
    };
    if start > end {
        return Err(StrokeError::OutOfRange);
    }
    Stroke::parse(slice_subrange(cfg_contents, start, end))
}

} // verus!
