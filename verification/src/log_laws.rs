//! What a sync of a log yields and which files are logs, stated by what stands in them.

use crate::adapter;
use crate::call;
use crate::call::ParsedCall;
use crate::digest;
use crate::digits;
use crate::discovery;
use crate::json;
use crate::laws;
use crate::ordering;
use crate::parser;
use crate::sequence;
use crate::session;
use crate::text;
use crate::text_laws;
use vstd::prelude::*;

verus! {

/// The call rows of a sync are one for one with its new records, in their order, however
/// many there are; and the rows of more records are those of the first and then those of
/// the others.
pub proof fn law_rows_are_one_for_one(
    a: Seq<parser::RecordView>,
    b: Seq<parser::RecordView>,
    seen: Set<Seq<char>>,
    project: Seq<char>,
)
    ensures
        session::rows(a, project).len() == a.len(),
        forall|i: int|
            0 <= i < a.len() ==> #[trigger] session::rows(a, project)[i] == parser::call_of(
                a[i],
                project,
            ),
        session::rows(a + b, project) == session::rows(a, project) + session::rows(b, project),
        session::rows(session::fresh(a, seen), project).len() == session::fresh(a, seen).len(),
{
    assert(session::rows(a + b, project) == session::rows(a, project) + session::rows(b, project));
}

/// The rows that are handed out are those that were made, one for one.
pub proof fn law_calls_say_what_they_hold(calls: Seq<ParsedCall>)
    ensures
        session::call_views(calls).len() == calls.len(),
        forall|i: int|
            0 <= i < calls.len() ==> #[trigger] session::call_views(calls)[i] == calls[i]@,
{
}

/// The keys of records are the keys that one of them has.
pub proof fn law_keys_are_those_of_the_records(records: Seq<parser::RecordView>, key: Seq<char>)
    ensures
        session::keys(records).contains(key) <==> exists|i: int|
            0 <= i < records.len() && (#[trigger] records[i]).dedup_key == key,
    decreases records.len(),
{
    if records.len() > 0 {
        let before = records.drop_last();
        law_keys_are_those_of_the_records(before, key);
        if exists|i: int| 0 <= i < before.len() && (#[trigger] before[i]).dedup_key == key {
            let i = choose|i: int| 0 <= i < before.len() && (#[trigger] before[i]).dedup_key == key;
            assert(records[i].dedup_key == key);
        }
        if records.last().dedup_key == key {
            assert(records[records.len() - 1].dedup_key == key);
        }
        if exists|i: int| 0 <= i < records.len() && (#[trigger] records[i]).dedup_key == key {
            let i = choose|i: int|
                0 <= i < records.len() && (#[trigger] records[i]).dedup_key == key;
            if i < before.len() {
                assert(before[i].dedup_key == key);
            }
        }
    }
}

/// One record more is one new record more, at the end, exactly where neither what was seen
/// before nor an earlier record has its key.
pub proof fn law_a_record_is_new_where_its_key_is(
    records: Seq<parser::RecordView>,
    record: parser::RecordView,
    seen: Set<Seq<char>>,
)
    ensures
        session::fresh(Seq::empty(), seen).len() == 0,
        ({
            let known = seen.contains(record.dedup_key) || exists|i: int|
                0 <= i < records.len() && (#[trigger] records[i]).dedup_key == record.dedup_key;
            &&& known ==> session::fresh(records.push(record), seen) == session::fresh(records, seen)
            &&& !known ==> session::fresh(records.push(record), seen) == session::fresh(
                records,
                seen,
            ).push(record)
        }),
{
    law_keys_are_those_of_the_records(records, record.dedup_key);
    assert(records.push(record).drop_last() == records);
}

/// The new records of two readings, one after the other, are those of one reading.
pub proof fn law_new_records_add_up(
    a: Seq<parser::RecordView>,
    b: Seq<parser::RecordView>,
    seen: Set<Seq<char>>,
    project: Seq<char>,
)
    ensures
        session::fresh(a + b, seen) == session::fresh(a, seen) + session::fresh(
            b,
            seen.union(session::keys(a)),
        ),
        session::rows(session::fresh(a + b, seen), project) == session::rows(
            session::fresh(a, seen),
            project,
        ) + session::rows(session::fresh(b, seen.union(session::keys(a))), project),
{
    laws::lemma_fresh_adds_up(a, b, seen);
    law_rows_are_one_for_one(
        session::fresh(a, seen),
        session::fresh(b, seen.union(session::keys(a))),
        seen,
        project,
    );
}

/// The first whole line of a log reaches to its first line feed and holds it, and the
/// others are those of what comes after it. Without a line feed there is no whole line.
pub proof fn law_whole_lines(line: Seq<u8>, rest: Seq<u8>)
    requires
        forall|i: int| 0 <= i < line.len() ==> line[i] != 10u8,
    ensures
        session::whole_lines(line + seq![10u8] + rest) == seq![line + seq![10u8]]
            + session::whole_lines(rest),
        session::whole_lines(line).len() == 0,
        session::consumed(line + seq![10u8] + rest) == line.len() + 1 + session::consumed(rest),
        session::consumed(line) == 0,
{
    let s = line + seq![10u8] + rest;
    let n = line.len() as int;
    assert forall|i: int| 0 <= i < n implies s[i] != 10u8 by {
        assert(s[i] == line[i]);
    }
    assert(s[n] == 10u8);
    sequence::lemma_first_at(s, 10u8, n);
    assert(s.take(n + 1) == line + seq![10u8]);
    assert(s.skip(n + 1) == rest);
    sequence::lemma_first_at(line, 10u8, n);
    session::lemma_consumed(line, 0);
    session::lemma_consumed_bounds(rest);
    let m = session::consumed(rest);
    assert forall|j: int| n + 1 + m <= j < s.len() implies s[j] != 10u8 by {
        assert(s[j] == rest[j - n - 1]);
    }
    if m > 0 {
        assert(s[n + m] == rest[m - 1]);
    }
    session::lemma_consumed(s, n + 1 + m);
}

/// The text of a line is what its bytes stand for, without the line feeds and carriage
/// returns at its end: the characters that they encode, where they are UTF-8.
pub proof fn law_the_text_of_a_line(line: Seq<u8>, s: Seq<char>, ending: Seq<char>)
    requires
        vstd::utf8::valid_utf8(line) ==> vstd::utf8::decode_utf8(line) == s + ending,
        !vstd::utf8::valid_utf8(line) ==> session::lossy_text(line) == s + ending,
        s.len() > 0 ==> s.last() != '\n' && s.last() != '\r',
        forall|i: int| 0 <= i < ending.len() ==> ending[i] == '\n' || ending[i] == '\r',
    ensures
        session::line_text(line) == s,
{
    text_laws::law_a_run_at_the_end_is_dropped(s, ending, session::line_end());
}

/// A log yields what its whole lines do, one after the other: a line that is a usage line
/// its record, any other nothing, and what follows the last line feed nothing.
pub proof fn law_every_whole_line_of_a_log_is_read(line: Seq<u8>, rest: Seq<u8>)
    requires
        forall|i: int| 0 <= i < line.len() ==> line[i] != 10u8,
    ensures
        ({
            let s = session::line_text(line + seq![10u8]);
            let read = parser::line_of(json::json_of_line(s));
            let all = session::log_records(line + seq![10u8] + rest);
            &&& text_laws::all_white(s) ==> all == session::log_records(rest)
            &&& !text_laws::all_white(s) ==> match read {
                parser::LineView::Usage(record) => all == seq![record] + session::log_records(rest),
                _ => all == session::log_records(rest),
            }
        }),
        session::log_records(line).len() == 0,
{
    let whole = line + seq![10u8];
    let s = session::line_text(whole);
    law_whole_lines(line, rest);
    assert(session::whole_lines(line) == Seq::<Seq<u8>>::empty());
    assert(session::line_texts(Seq::empty()) == Seq::<Seq<char>>::empty());
    assert(whole.last() == 10u8);
    laws::lemma_log_records_add_up(whole, rest);
    law_whole_lines(line, Seq::empty());
    assert(whole + Seq::<u8>::empty() == whole);
    assert(session::whole_lines(Seq::<u8>::empty()).len() == 0);
    assert(session::whole_lines(whole) == seq![whole]);
    assert(session::line_texts(seq![whole]) == seq![s]);
    crate::parser_laws::law_every_line_is_read(Seq::empty(), Seq::empty(), s);
    let read = parser::read_lines(seq![s]);
    let records = session::log_records(whole);
    if text_laws::all_white(s) {
        assert(read == Seq::<parser::LineView>::empty());
        assert(records == Seq::<parser::RecordView>::empty());
        assert(records + session::log_records(rest) == session::log_records(rest));
    } else {
        let one = parser::line_of(json::json_of_line(s));
        crate::parser_laws::lemma_one_line(one);
        assert(records == parser::usage_records(seq![one]));
        if !(one is Usage) {
            assert(records == Seq::<parser::RecordView>::empty());
            assert(records + session::log_records(rest) == session::log_records(rest));
        }
    }
}

/// The probe at an offset is the digest of the 256 bytes before it, or of all of them
/// where there are fewer.
pub proof fn law_the_probe_covers_what_stands_before(contents: Seq<u8>, offset: int)
    requires
        0 <= offset <= contents.len(),
    ensures
        offset <= 256 ==> session::window_of(contents, offset) == contents.take(offset),
        offset > 256 ==> session::window_of(contents, offset) == contents.subrange(
            offset - 256,
            offset,
        ),
        session::probe_at(contents, offset) == digest::hex(
            digest::fnv1a64(session::window_of(contents, offset)) as nat,
            16,
        ),
        session::probe_of(offset, Some(session::window_of(contents, offset))) == Some(
            session::probe_at(contents, offset),
        ),
        offset > 0 ==> session::probe_of(offset, None) is None,
        session::probe_len(offset) == if offset < 256 {
            offset
        } else {
            256
        },
{
    if offset <= 256 {
        assert(contents.subrange(0, offset) == contents.take(offset));
    }
    if offset == 0 {
        assert(session::window_of(contents, 0) == Seq::<u8>::empty());
    }
}

/// A sync starts where its cursor says, exactly where that is a cursor of this parser that
/// lies within the file, past its start, and whose probe the file still has; any other
/// starts at the start of the file.
pub proof fn law_where_a_sync_starts(contents: Seq<u8>, cursor: session::SourceCursor, len: u64)
    requires
        len == contents.len(),
    ensures
        session::start_of(None, contents) == 0,
        ({
            let held = cursor.v@ == "1"@ && 0 < cursor.offset <= contents.len() && cursor.probe@
                == session::probe_at(contents, cursor.offset as int);
            &&& held ==> session::start_of(Some(cursor), contents) == cursor.offset
            &&& !held ==> session::start_of(Some(cursor), contents) == 0
        }),
        session::is_candidate(cursor, Some(len)) <==> cursor.v@ == "1"@ && 0 < cursor.offset <= len,
        !session::is_candidate(cursor, None),
{
}

/// A step of a sync starts where its cursor says, exactly where the cursor is a candidate
/// and the probe that was read is its own.
pub proof fn law_where_a_step_starts(
    cursor: session::SourceCursor,
    len: Option<u64>,
    probe: Option<Seq<char>>,
)
    ensures
        session::resume_at(None, len, probe) == 0,
        session::is_candidate(cursor, len) && probe == Some(cursor.probe@) ==> session::resume_at(
            Some(cursor),
            len,
            probe,
        ) == cursor.offset,
        !session::is_candidate(cursor, len) || probe != Some(cursor.probe@) ==> session::resume_at(
            Some(cursor),
            len,
            probe,
        ) == 0,
{
}

/// What was stored and what was read is what is handed in.
pub proof fn law_what_is_handed_in_is_used(
    cursor: &session::SourceCursor,
    window: &[u8],
    probe: String,
)
    ensures
        session::stored(Some(cursor)) == Some(*cursor),
        session::stored(None) is None,
        session::bytes_read(Some(window)) == Some(window@),
        session::bytes_read(None) is None,
        call::optional_text(Some(probe)) == Some(probe@),
        call::optional_text(None) is None,
{
}

/// The name of a log that is numbered `number`, with `plus` before it.
pub open spec fn log_name(plus: Seq<char>, number: Seq<char>) -> Seq<char> {
    "usage-"@ + (plus + (number + ".jsonl"@))
}

/// A file called by the prefix, a plus sign or nothing, digits and the extension is the
/// log of that number, where it fits 32 bits, with zeros before it or without them.
pub proof fn law_a_numbered_name_is_a_log(plus: Seq<char>, number: Seq<char>)
    requires
        plus.len() == 0 || plus == seq!['+'],
        text_laws::is_numeral(number),
    ensures
        ({
            let value = digits::digits_value(digits::digits_of(number));
            discovery::log_index(log_name(plus, number)) == if value <= u32::MAX {
                Some(value as u32)
            } else {
                None
            }
        }),
{
    reveal_strlit("usage-");
    reveal_strlit("jsonl");
    reveal_strlit(".jsonl");
    reveal_strlit(".");
    let name = log_name(plus, number);
    let inner = plus + number;
    let after = name.len() - 6;
    assert(discovery::log_suffix() == ".jsonl"@);
    assert(name == "usage-"@ + inner + ".jsonl"@);
    assert(name.take(6) == "usage-"@);
    assert(name.skip(after) == ".jsonl"@);
    assert(name.subrange(6, after) == inner);
    if plus.len() > 0 {
        assert(inner[0] == '+');
        assert(inner.drop_first() == number);
    } else {
        assert(inner == number);
        assert(inner[0] == number[0]);
    }
    digits::lemma_digit_run(number, number.len() as int);
}

/// No other file is a log.
pub proof fn law_only_numbered_names_are_logs(name: Seq<char>)
    requires
        discovery::log_index(name) is Some,
    ensures
        exists|plus: Seq<char>, number: Seq<char>|
            (plus.len() == 0 || plus == seq!['+']) && text_laws::is_numeral(number) && name
                == #[trigger] log_name(plus, number) && digits::digits_value(
                digits::digits_of(number),
            ) <= u32::MAX,
{
    reveal_strlit("usage-");
    reveal_strlit("jsonl");
    reveal_strlit(".jsonl");
    reveal_strlit(".");
    assert(discovery::log_suffix() == ".jsonl"@);
    let after = name.len() - 6;
    let inner = name.subrange(6, after);
    let signed = inner.len() > 0 && inner[0] == '+';
    let plus = if signed {
        inner.take(1)
    } else {
        Seq::empty()
    };
    let number = if signed {
        inner.drop_first()
    } else {
        inner
    };
    if signed {
        assert(plus == seq!['+']);
    }
    text_laws::lemma_digit_run_bounds(number);
    assert(number.take(number.len() as int) == number);
    assert(inner == plus + number);
    assert(name == "usage-"@ + inner + ".jsonl"@) by {
        assert(name.take(6) + name.subrange(6, after) + name.skip(after) == name);
    }
    assert(name == log_name(plus, number));
}

/// An entry is a log exactly where it is a file that is called as one.
pub proof fn law_an_entry_is_a_log_by_its_name<P>(entry: discovery::DirEntry<P>)
    ensures
        discovery::entry_index(entry) == (match entry.name {
            Some(name) if entry.is_file => discovery::log_index(name@),
            _ => None,
        }),
{
}

/// In emission order every log of a directory stands once, and nothing else does; a log
/// stands before another exactly where it has the lower number, or the same number and was
/// listed before it.
pub proof fn law_emission_order<P>(
    entries: Seq<discovery::DirEntry<P>>,
    order: Seq<usize>,
    a: int,
    b: int,
)
    requires
        discovery::is_emission_order(entries, order),
        0 <= a < order.len(),
        0 <= b < order.len(),
        a != b,
    ensures
        forall|p: usize|
            order.contains(p) <==> p < entries.len() && discovery::entry_index(
                #[trigger] entries[p as int],
            ) is Some,
        order[a] != order[b],
        ({
            let m = discovery::entry_index(entries[order[a] as int])->0;
            let n = discovery::entry_index(entries[order[b] as int])->0;
            a < b <==> m < n || (m == n && order[a] < order[b])
        }),
{
    let less = discovery::lower_index(entries);
    if a < b {
        assert(ordering::comes_first(less, order[a] as int, order[b] as int));
    } else {
        assert(ordering::comes_first(less, order[b] as int, order[a] as int));
    }
    assert forall|p: usize|
        order.contains(p) <==> p < entries.len() && discovery::entry_index(
            #[trigger] entries[p as int],
        ) is Some by {
        assert(order.contains(p) <==> p < entries.len() && discovery::entry_index(
            entries[p as int],
        ) is Some);
    }
}

/// Each log is one source, with its own path, under this tool's project and name.
pub proof fn law_each_log_is_a_source<P>(entries: Seq<discovery::DirEntry<P>>, order: Seq<usize>)
    ensures
        discovery::sources_at(entries, order).len() == order.len(),
        forall|k: int|
            0 <= k < order.len() ==> {
                let source = #[trigger] discovery::sources_at(entries, order)[k];
                source.path == entries[order[k] as int].path && source.project@ == "Skylark"@
                    && source.tool@ == "skylark"@
            },
{
}

/// The fingerprint of a source is the parser's mark, a colon, and the shared one.
pub proof fn law_the_fingerprint_is_written_out(shared: Seq<char>)
    ensures
        adapter::fingerprint_of(shared) == "skylark-v1-usage-export"@ + ":"@ + shared,
{
}

} // verus!
