//! One log file, read from where the last reading stopped.
//!
//! The log is append-only: the daemon writes whole lines and rotates to a new file
//! rather than rewriting one, so a byte offset is a safe place to resume from. A
//! probe, the digest of the bytes just before the offset, covers a file that was
//! replaced by a copy or a restore.

use crate::call;
use crate::call::ParsedCall;
use crate::digest;
use crate::digest::fnv1a64_hex;
use crate::parser;
use crate::parser::{parse_line, to_parsed_call, Line};
use crate::sequence;
use crate::text;
use crate::text::{chars_of, same_text, string_of, trim_chars, trim_end_len};
use vstd::prelude::*;

pub use vstd::hash_set::StringHashSet;

verus! {

/// Bump to invalidate persisted resume cursors when parsing semantics change.
pub const PARSE_VERSION: &'static str = "1";

/// Bytes hashed immediately before a stored offset, so that a file rewritten where
/// the resume would land is detected even when it is at least as long as it was.
pub const PROBE_BYTES: u64 = 256;

/// Persisted per-source resume cursor.
#[derive(Clone, Debug, PartialEq)]
pub struct SourceCursor {
    pub v: String,
    pub offset: u64,
    pub probe: String,
}

/// How many bytes before `offset` the probe covers.
pub open spec fn probe_len(offset: int) -> int {
    if offset < PROBE_BYTES {
        offset
    } else {
        PROBE_BYTES as int
    }
}

/// The bytes of a file that holds `contents` that the probe at `offset` covers.
pub open spec fn window_of(contents: Seq<u8>, offset: int) -> Seq<u8> {
    contents.subrange(offset - probe_len(offset), offset)
}

/// The probe of a file that holds `contents`, at `offset`.
pub open spec fn probe_at(contents: Seq<u8>, offset: int) -> Seq<char> {
    digest::hex(digest::fnv1a64(window_of(contents, offset)) as nat, 16)
}

/// The bytes that the probe at `offset` covers: where they start and how many they
/// are.
pub fn probe_window(offset: u64) -> (window: (u64, usize))
    ensures
        window.0 == offset - probe_len(offset as int),
        window.1 == probe_len(offset as int),
{
    let take: u64 = if offset < PROBE_BYTES {
        offset
    } else {
        PROBE_BYTES
    };
    (offset - take, take as usize)
}

/// The probe at `offset`, given the bytes of its window, if they could be read. At
/// the start of a file there is nothing to read.
pub open spec fn probe_of(offset: int, window: Option<Seq<u8>>) -> Option<Seq<char>> {
    if offset == 0 {
        Some(digest::hex(digest::fnv1a64(Seq::empty()) as nat, 16))
    } else {
        match window {
            Some(bytes) => Some(digest::hex(digest::fnv1a64(bytes) as nat, 16)),
            None => None,
        }
    }
}

/// The bytes that were read, if any.
pub open spec fn bytes_read(window: Option<&[u8]>) -> Option<Seq<u8>> {
    match window {
        Some(bytes) => Some(bytes@),
        None => None,
    }
}

/// The probe at `offset`, given the bytes of its window, if they could be read.
pub fn probe_hash(offset: u64, window: Option<&[u8]>) -> (probe: Option<String>)
    ensures
        call::optional_text(probe) == probe_of(offset as int, bytes_read(window)),
{
    if offset == 0 {
        let nothing: [u8; 0] = [];
        assert(nothing@ == Seq::<u8>::empty());
        return Some(fnv1a64_hex(&nothing));
    }
    match window {
        Some(bytes) => Some(fnv1a64_hex(bytes)),
        None => None,
    }
}

/// Whether a cursor is one of this parser's and lies within a file of that length.
pub open spec fn is_candidate(cursor: SourceCursor, len: Option<u64>) -> bool {
    &&& cursor.v@ == PARSE_VERSION@
    &&& cursor.offset > 0
    &&& len is Some
    &&& cursor.offset <= len->0
}

/// Whether a cursor is one of this parser's and lies within a file of that length:
/// then its probe is worth reading.
pub fn candidate(cursor: &SourceCursor, len: Option<u64>) -> (r: bool)
    ensures
        r == is_candidate(*cursor, len),
{
    match len {
        Some(len) => same_text(cursor.v.as_str(), PARSE_VERSION) && cursor.offset > 0
            && cursor.offset <= len,
        None => false,
    }
}

/// Where to start reading, given the stored cursor, the length of the file and the
/// probe of the file at the cursor's offset: at the offset where all of them agree,
/// at the start of the file where they do not.
pub open spec fn resume_at(
    cursor: Option<SourceCursor>,
    len: Option<u64>,
    probe: Option<Seq<char>>,
) -> int {
    match cursor {
        Some(c) => if is_candidate(c, len) && probe == Some(c.probe@) {
            c.offset as int
        } else {
            0
        },
        None => 0,
    }
}

/// The cursor that was stored, if any.
pub open spec fn stored(cursor: Option<&SourceCursor>) -> Option<SourceCursor> {
    match cursor {
        Some(c) => Some(*c),
        None => None,
    }
}

/// Where to start reading, given the stored cursor, the length of the file and the
/// probe of the file at the cursor's offset.
pub fn resume_offset(
    cursor: Option<&SourceCursor>,
    len: Option<u64>,
    probe: Option<&str>,
) -> (start: u64)
    ensures
        start == resume_at(
            stored(cursor),
            len,
            match probe {
                Some(p) => Some(p@),
                None => None,
            },
        ),
{
    match cursor {
        Some(c) => {
            if candidate(c, len) {
                match probe {
                    Some(probe) => if same_text(probe, c.probe.as_str()) {
                        c.offset
                    } else {
                        0
                    },
                    None => 0,
                }
            } else {
                0
            }
        },
        None => 0,
    }
}

/// The position of the first line feed of `bytes`, or its length.
pub open spec fn line_feed(bytes: Seq<u8>) -> int {
    sequence::first_at(bytes, 10u8)
}

/// How many of `bytes` the lines that end in a line feed take.
pub open spec fn consumed(bytes: Seq<u8>) -> int
    decreases bytes.len(),
{
    if bytes.len() == 0 {
        0
    } else if bytes.last() == 10u8 {
        bytes.len() as int
    } else {
        consumed(bytes.drop_last())
    }
}

/// The lines of `bytes` that end in a line feed, each with its ending.
pub open spec fn whole_lines(bytes: Seq<u8>) -> Seq<Seq<u8>>
    decreases bytes.len(),
{
    let n = line_feed(bytes);
    if 0 <= n < bytes.len() {
        seq![bytes.take(n + 1)] + whole_lines(bytes.skip(n + 1))
    } else {
        Seq::empty()
    }
}

/// The text that `String::from_utf8_lossy` makes of bytes.
pub uninterp spec fn lossy_text(bytes: Seq<u8>) -> Seq<char>;

/// `String::from_utf8_lossy`: the characters that the bytes encode in UTF-8. Which
/// replacement characters stand for bytes that are not UTF-8 is left to that
/// function.
#[verifier::external_body]
fn decode_lossy(bytes: &[u8]) -> (s: String)
    ensures
        s@ == lossy_text(bytes@),
        vstd::utf8::valid_utf8(bytes@) ==> s@ == vstd::utf8::decode_utf8(bytes@),
{
    String::from_utf8_lossy(bytes).into_owned()
}

/// The text that `bytes` stand for: the characters that they encode, where they are
/// UTF-8.
pub open spec fn bytes_text(bytes: Seq<u8>) -> Seq<char> {
    if vstd::utf8::valid_utf8(bytes) {
        vstd::utf8::decode_utf8(bytes)
    } else {
        lossy_text(bytes)
    }
}

/// The predicate "is a line feed or a carriage return".
pub open spec fn line_end() -> spec_fn(char) -> bool {
    |c: char| c == '\n' || c == '\r'
}

fn is_line_end(c: char) -> (r: bool)
    ensures
        r == line_end()(c),
{
    c == '\n' || c == '\r'
}

/// The text of a line that ends in a line feed, without its ending.
pub open spec fn line_text(line: Seq<u8>) -> Seq<char> {
    text::trim_end_by(bytes_text(line), line_end())
}

/// The text of each of `lines`.
pub open spec fn line_texts(lines: Seq<Seq<u8>>) -> Seq<Seq<char>> {
    Seq::new(lines.len(), |i: int| line_text(lines[i]))
}

/// The records in the whole lines of `bytes`, in order.
pub open spec fn log_records(bytes: Seq<u8>) -> Seq<parser::RecordView> {
    parser::usage_records(parser::read_lines(line_texts(whole_lines(bytes))))
}

/// The keys of `records`.
pub open spec fn keys(records: Seq<parser::RecordView>) -> Set<Seq<char>>
    decreases records.len(),
{
    if records.len() == 0 {
        Set::empty()
    } else {
        keys(records.drop_last()).insert(records.last().dedup_key)
    }
}

/// The records whose key is neither in `seen` nor on an earlier record.
pub open spec fn fresh(
    records: Seq<parser::RecordView>,
    seen: Set<Seq<char>>,
) -> Seq<parser::RecordView>
    decreases records.len(),
{
    if records.len() == 0 {
        Seq::empty()
    } else {
        let before = records.drop_last();
        let key = records.last().dedup_key;
        if seen.contains(key) || keys(before).contains(key) {
            fresh(before, seen)
        } else {
            fresh(before, seen).push(records.last())
        }
    }
}

/// The call rows of `records`.
pub open spec fn rows(records: Seq<parser::RecordView>, project: Seq<char>) -> Seq<call::CallView> {
    Seq::new(records.len(), |i: int| parser::call_of(records[i], project))
}

/// What each of `calls` says.
pub open spec fn call_views(calls: Seq<ParsedCall>) -> Seq<call::CallView> {
    Seq::new(calls.len(), |i: int| calls[i]@)
}

/// What the whole lines of a log, from one place on, yielded.
pub struct LogParse {
    pub calls: Vec<ParsedCall>,
    /// Where the last whole line ends.
    pub offset: u64,
}

/// The whole lines end after the last line feed.
pub proof fn lemma_consumed(bytes: Seq<u8>, n: int)
    requires
        0 <= n <= bytes.len(),
        n > 0 ==> bytes[n - 1] == 10u8,
        forall|j: int| n <= j < bytes.len() ==> bytes[j] != 10u8,
    ensures
        consumed(bytes) == n,
    decreases bytes.len() - n,
{
    if n < bytes.len() {
        assert forall|j: int| n <= j < bytes.len() - 1 implies bytes.drop_last()[j] != 10u8 by {
            assert(bytes.drop_last()[j] == bytes[j]);
        }
        lemma_consumed(bytes.drop_last(), n);
    }
}

/// The line feed that ends the line at `from`, if the line is finished.
fn find_line_feed(bytes: &[u8], from: usize) -> (end: Option<usize>)
    requires
        from <= bytes@.len(),
    ensures
        match end {
            Some(n) => from <= n < bytes@.len() && bytes@[n as int] == 10u8 && forall|j: int|
                from <= j < n ==> bytes@[j] != 10u8,
            None => forall|j: int| from <= j < bytes@.len() ==> bytes@[j] != 10u8,
        },
{
    let mut i: usize = from;
    while i < bytes.len()
        invariant
            from <= i <= bytes@.len(),
            forall|j: int| from <= j < i ==> bytes@[j] != 10u8,
        decreases bytes@.len() - i,
    {
        if bytes[i] == 10u8 {
            return Some(i);
        }
        i += 1;
    }
    None
}

/// The text of a line that ends in a line feed, without its ending.
fn text_of_line(line: &[u8]) -> (s: String)
    ensures
        s@ == line_text(line@),
{
    let whole = decode_lossy(line);
    let chars = chars_of(whole.as_str());
    let len = trim_end_len(chars.as_slice(), is_line_end, Ghost(line_end()));
    let kept = vstd::slice::slice_subrange(chars.as_slice(), 0, len);
    assert(kept@ == chars@.take(len as int));
    string_of(kept)
}

/// The records in `lines`.
spec fn records_in(lines: Seq<Seq<u8>>) -> Seq<parser::RecordView> {
    parser::usage_records(parser::read_lines(line_texts(lines)))
}

/// Reads the whole lines of `tail`, the bytes of a log from `start` on, and makes a
/// call row of every record whose key is not in `seen`, which then holds it. A last
/// line without a line feed is a record that is still being written: it is not read,
/// and the offset stays before it.
pub fn parse_log(tail: &[u8], start: u64, project: &str, seen: &mut StringHashSet) -> (log:
    LogParse)
    requires
        start + tail@.len() <= u64::MAX,
    ensures
        log.offset == start + consumed(tail@),
        call_views(log.calls@) == rows(fresh(log_records(tail@), old(seen)@), project@),
        final(seen)@ == old(seen)@.union(keys(log_records(tail@))),
{
    let ghost seen0 = seen@;
    let ghost mut done: Seq<Seq<u8>> = Seq::empty();
    let mut calls: Vec<ParsedCall> = Vec::new();
    let mut pos: usize = 0;
    proof {
        assert(tail@.skip(0) == tail@);
        assert(done + whole_lines(tail@) == whole_lines(tail@));
        assert(records_in(done) == Seq::<parser::RecordView>::empty());
        assert(seen0.union(Set::empty()) == seen0);
        assert(call_views(calls@) == rows(fresh(records_in(done), seen0), project@));
    }
    let total: usize = tail.len();
    let mut finished: bool = false;
    while !finished
        invariant
            seen0 == old(seen)@,
            pos <= tail@.len() == total,
            pos > 0 ==> tail@[pos - 1] == 10u8,
            whole_lines(tail@) == done + whole_lines(tail@.skip(pos as int)),
            call_views(calls@) == rows(fresh(records_in(done), seen0), project@),
            seen@ == seen0.union(keys(records_in(done))),
            finished ==> forall|j: int| pos <= j < tail@.len() ==> tail@[j] != 10u8,
        decreases tail@.len() - pos + if finished { 0int } else { 1int },
    {
        match find_line_feed(tail, pos) {
            None => {
                finished = true;
            },
            Some(end) => {
                let line = vstd::slice::slice_subrange(tail, pos, end + 1);
                let ghost next = done.push(line@);
                let ghost before = records_in(done);
                proof {
                    let rest = tail@.skip(pos as int);
                    sequence::lemma_first_at(rest, 10u8, end - pos);
                    assert(rest.take(end - pos + 1) == line@);
                    assert(rest.skip(end - pos + 1) == tail@.skip(end + 1));
                    assert(done + (seq![line@] + whole_lines(tail@.skip(end + 1))) == next
                        + whole_lines(tail@.skip(end + 1)));
                    assert(line_texts(next).drop_last() == line_texts(done));
                    assert(line_texts(next).last() == line_text(line@));
                }
                let s = text_of_line(line);
                if !trim_chars(chars_of(s.as_str()).as_slice()).is_empty() {
                    let read = parse_line(s.as_str());
                    proof {
                        let lines = parser::read_lines(line_texts(done));
                        assert(parser::read_lines(line_texts(next)) == lines.push(read@));
                        assert(lines.push(read@).drop_last() == lines);
                    }
                    if let Line::Usage(record) = read {
                        let ghost old_calls = call_views(calls@);
                        proof {
                            assert(records_in(next) == before.push(record@));
                            assert(before.push(record@).drop_last() == before);
                            assert(seen0.union(keys(before)).insert(record@.dedup_key)
                                == seen0.union(keys(before).insert(record@.dedup_key)));
                        }
                        if seen.insert(record.dedup_key.clone()) {
                            let row = to_parsed_call(&record, project);
                            calls.push(row);
                            assert(call_views(calls@) == old_calls.push(row@));
                            assert(rows(fresh(before, seen0).push(record@), project@) == rows(
                                fresh(before, seen0),
                                project@,
                            ).push(row@));
                        }
                    }
                }
                proof {
                    done = next;
                }
                pos = end + 1;
            },
        }
    }
    proof {
        let rest = tail@.skip(pos as int);
        sequence::lemma_first_at(rest, 10u8, rest.len() as int);
        assert(whole_lines(rest) == Seq::<Seq<u8>>::empty());
        assert(done + Seq::<Seq<u8>>::empty() == done);
        lemma_consumed(tail@, pos as int);
    }
    LogParse { calls, offset: start + pos as u64 }
}

/// What one sync of a log file yielded.
pub struct AdapterParse {
    pub calls: Vec<ParsedCall>,
    /// Where the next sync can resume.
    pub cursor: Option<SourceCursor>,
    /// One where this sync resumed past a stored offset.
    pub resumed_files: usize,
}

impl Default for AdapterParse {
    /// A sync that read nothing, not even where to resume.
    fn default() -> (parse: AdapterParse)
        ensures
            parse.calls@.len() == 0,
            parse.cursor is None,
            parse.resumed_files == 0,
    {
        AdapterParse { calls: Vec::new(), cursor: None, resumed_files: 0 }
    }
}

/// What a sync that started at `start` yielded, given the log it read and the probe
/// of the file at the offset it reached, if that could be read: without it there is
/// no cursor.
pub fn finish(start: u64, log: LogParse, probe: Option<String>) -> (parse: AdapterParse)
    ensures
        parse.calls == log.calls,
        match (probe, parse.cursor) {
            (Some(p), Some(c)) => c.v@ == PARSE_VERSION@ && c.offset == log.offset && c.probe == p,
            (None, None) => true,
            _ => false,
        },
        parse.resumed_files == if start > 0 {
            1int
        } else {
            0int
        },
{
    let cursor: Option<SourceCursor> = match probe {
        Some(probe) => Some(
            SourceCursor { v: PARSE_VERSION.to_owned(), offset: log.offset, probe },
        ),
        None => None,
    };
    AdapterParse {
        calls: log.calls,
        cursor,
        resumed_files: if start > 0 {
            1
        } else {
            0
        },
    }
}

/// Where a sync of a file that holds `contents` starts: at the offset of a cursor
/// whose probe the file still has, at the start of the file without one.
pub open spec fn start_of(cursor: Option<SourceCursor>, contents: Seq<u8>) -> int {
    match cursor {
        Some(c) => if c.v@ == PARSE_VERSION@ && 0 < c.offset <= contents.len() && c.probe@
            == probe_at(contents, c.offset as int) {
            c.offset as int
        } else {
            0
        },
        None => 0,
    }
}

/// The probe at `offset` of a file that holds `contents`.
fn probe_in(contents: &[u8], offset: u64) -> (probe: Option<String>)
    requires
        offset <= contents@.len(),
    ensures
        probe matches Some(p) && p@ == probe_at(contents@, offset as int),
{
    let total: usize = contents.len();
    assert(offset <= total);
    let (from, len) = probe_window(offset);
    let window = vstd::slice::slice_subrange(contents, from as usize, from as usize + len);
    assert(window@ == window_of(contents@, offset as int));
    if offset == 0 {
        assert(window@ == Seq::<u8>::empty());
    }
    probe_hash(offset, Some(window))
}

/// One sync of a log file that holds `contents`, resuming past the offset of
/// `cursor` where the file still matches it.
pub fn parse_session_with_cursor(
    contents: &[u8],
    project: &str,
    seen: &mut StringHashSet,
    cursor: Option<&SourceCursor>,
) -> (parse: AdapterParse)
    ensures
        ({
            let start = start_of(stored(cursor), contents@);
            let tail = contents@.skip(start);
            let end = start + consumed(tail);
            &&& call_views(parse.calls@) == rows(fresh(log_records(tail), old(seen)@), project@)
            &&& final(seen)@ == old(seen)@.union(keys(log_records(tail)))
            &&& parse.cursor matches Some(c) && c.v@ == PARSE_VERSION@ && c.offset == end
                && c.probe@ == probe_at(contents@, end)
            &&& parse.resumed_files == if start > 0 {
                1int
            } else {
                0int
            }
        }),
{
    let len: u64 = contents.len() as u64;
    let probe: Option<String> = match cursor {
        Some(c) => if candidate(c, Some(len)) {
            probe_in(contents, c.offset)
        } else {
            None
        },
        None => None,
    };
    let known: Option<&str> = match &probe {
        Some(p) => Some(p.as_str()),
        None => None,
    };
    let start = resume_offset(cursor, Some(len), known);
    let tail = vstd::slice::slice_subrange(contents, start as usize, contents.len());
    assert(tail@ == contents@.skip(start as int));
    let log = parse_log(tail, start, project, seen);
    proof {
        lemma_consumed_bounds(tail@);
    }
    let next = probe_in(contents, log.offset);
    finish(start, log, next)
}

/// Full parse of a log file that holds `contents`.
pub fn parse_session(contents: &[u8], project: &str, seen: &mut StringHashSet) -> (calls: Vec<
    ParsedCall,
>)
    ensures
        call_views(calls@) == rows(fresh(log_records(contents@), old(seen)@), project@),
        final(seen)@ == old(seen)@.union(keys(log_records(contents@))),
{
    assert(contents@.skip(0) == contents@);
    parse_session_with_cursor(contents, project, seen, None).calls
}

/// The whole lines end after a line feed, and none follows.
pub proof fn lemma_consumed_bounds(bytes: Seq<u8>)
    ensures
        0 <= consumed(bytes) <= bytes.len(),
        consumed(bytes) > 0 ==> bytes[consumed(bytes) - 1] == 10u8,
        forall|j: int| consumed(bytes) <= j < bytes.len() ==> bytes[j] != 10u8,
    decreases bytes.len(),
{
    if bytes.len() > 0 && bytes.last() != 10u8 {
        lemma_consumed_bounds(bytes.drop_last());
        assert forall|j: int| consumed(bytes) <= j < bytes.len() implies bytes[j] != 10u8 by {
            if j < bytes.len() - 1 {
                assert(bytes.drop_last()[j] == bytes[j]);
            }
        }
    }
}

} // verus!
