//! What the crate promises as a whole, stated over the meanings that the contracts
//! of its functions use.

use crate::adapter;
use crate::call;
use crate::call::{TokenQuality, Tool};
use crate::config;
use crate::cost;
use crate::cost::CostReading;
use crate::digest;
use crate::discovery;
use crate::json;
use crate::ordering;
use crate::parser;
use crate::projects;
use crate::sequence;
use crate::session;
use crate::text;
use vstd::prelude::*;

verus! {

/// The record's key is the producer's, verbatim, and it is the one derived from the
/// record's trace and sequence number.
pub proof fn law_key_is_stated_and_derived(value: json::JsonTree)
    requires
        parser::is_usage(value),
    ensures
        ({
            let event = value.member("event"@)->0;
            let key = parser::record_of(value).dedup_key;
            &&& value.text_at("dedupKey"@) == Some(key)
            &&& key == parser::key_of(
                event.text_at("trace_id"@)->0,
                event.count_at("sequence"@)->0,
            )
        }),
{
}

/// A usage line whose stated key is not the derived one is unreadable.
pub proof fn law_foreign_key_is_refused(value: json::JsonTree)
    requires
        value.text_at("record"@) == Some("usage"@),
        value.text_at("dedupKey"@) != Some(
            parser::key_of(
                value.member("event"@)->0.text_at("trace_id"@)->0,
                value.member("event"@)->0.count_at("sequence"@)->0,
            ),
        ),
    ensures
        parser::line_of(Some(value)) == parser::LineView::Unreadable,
{
    reveal_strlit("usage");
    reveal_strlit("gap");
    assert("usage"@.len() != "gap"@.len());
}

/// Only an exact count may carry a figure: a record with any other token quality has
/// no cost, or a zero.
pub proof fn law_only_exact_counts_carry_a_figure(value: json::JsonTree)
    requires
        parser::is_usage(value),
        parser::record_of(value).token_quality != TokenQuality::Exact,
    ensures
        parser::record_of(value).cost_usd matches Some(cost) ==> cost::reading(cost)
            == CostReading::Zero,
{
}

/// A cost that a record carries reads as a double does: it is a number, or, where the
/// counts are exact, an infinity or a not-a-number.
pub proof fn law_a_cost_is_readable(value: json::JsonTree)
    requires
        parser::is_usage(value),
    ensures
        parser::record_of(value).cost_usd matches Some(cost) ==> cost::reading(cost)
            != CostReading::Unreadable,
{
}

/// There is a pricing version exactly where there is a cost.
pub proof fn law_cost_names_its_table(value: json::JsonTree)
    requires
        parser::is_usage(value),
    ensures
        parser::record_of(value).cost_usd is Some <==> parser::record_of(
            value,
        ).pricing_version is Some,
{
}

/// A call that could not be priced keeps its tokens: the counts are those of the
/// line, whatever the cost.
pub proof fn law_unpriced_is_not_unused(value: json::JsonTree)
    requires
        parser::is_usage(value),
    ensures
        ({
            let payload = value.member("event"@)->0.member("payload"@)->0;
            &&& payload.nullable_count_at("promptTokens"@) == Some(
                parser::record_of(value).prompt_tokens,
            )
            &&& payload.nullable_count_at("completionTokens"@) == Some(
                parser::record_of(value).completion_tokens,
            )
        }),
{
}

/// Every record comes from one of the backends that the export covers.
pub proof fn law_backend_is_covered(value: json::JsonTree)
    requires
        parser::is_usage(value),
    ensures
        config::is_covered(parser::record_of(value).backend),
{
}

/// A line of any other contract is unreadable, whatever else it holds.
pub proof fn law_other_contracts_are_unreadable(value: json::JsonTree)
    requires
        value.text_at("contractVersion"@) != Some(config::EXPORT_CONTRACT_VERSION@),
    ensures
        parser::line_of(Some(value)) == parser::LineView::Unreadable,
{
}

/// A call scoped to a run is attributed to the run, any other to the site that
/// emitted it.
pub proof fn law_attribution(value: json::JsonTree)
    requires
        parser::is_usage(value),
    ensures
        ({
            let event = value.member("event"@)->0;
            let session = parser::record_of(value).session_id;
            &&& event.text_at("run_id"@)->0.len() > 0 ==> Some(session) == event.text_at("run_id"@)
            &&& event.text_at("run_id"@)->0.len() == 0 ==> Some(session) == event.text_at(
                "session_id"@,
            )
        }),
{
}

/// A call row invents no cost: it repeats the record's figure, and where there is
/// none it adds nothing.
pub proof fn law_no_cost_is_invented(record: parser::RecordView, project: Seq<char>)
    ensures
        record.cost_usd matches Some(cost) ==> parser::call_of(record, project).cost_usd == cost,
        record.cost_usd is None ==> cost::reading(parser::call_of(record, project).cost_usd)
            == CostReading::Zero,
{
    if record.cost_usd is None {
        lemma_zero_reads_as_zero();
    }
}

pub proof fn lemma_zero_reads_as_zero()
    ensures
        cost::reading("0"@) == CostReading::Zero,
{
    let s = "0"@;
    reveal_strlit("0");
    reveal_strlit("inf");
    reveal_strlit("infinity");
    reveal_strlit("nan");
    reveal_with_fuel(crate::digits::digit_run, 3);
    reveal_with_fuel(crate::digits::digits_value, 2);
    assert(s.drop_first().len() == 0);
    assert(crate::digits::digit_run(s) == 1);
    assert(s.skip(1).len() == 0);
    let d = crate::digits::digits_of(s.take(1));
    assert(d.len() == 1 && d[0] == 0);
    assert(crate::digits::digits_value(d) == 0);
}

/// A gap marker is data: it is never unreadable where it says how many rows were
/// lost.
pub proof fn law_a_gap_is_read(value: json::JsonTree)
    requires
        value.text_at("contractVersion"@) == Some(config::EXPORT_CONTRACT_VERSION@),
        value.text_at("record"@) == Some("gap"@),
        value.count_at("lagged"@) is Some,
    ensures
        parser::line_of(Some(value)) == parser::LineView::Gap(value.count_at("lagged"@)->0),
{
}

/// Two parses taken together.
pub open spec fn merged(a: parser::ExportView, b: parser::ExportView) -> parser::ExportView {
    parser::ExportView {
        records: a.records + b.records,
        lagged_rows: parser::saturating_sum(a.lagged_rows as nat, b.lagged_rows as nat),
        skipped_lines: a.skipped_lines + b.skipped_lines,
    }
}

/// What the lines of two parts yield is what the parts yield, taken together.
pub proof fn law_lines_add_up(a: Seq<parser::LineView>, b: Seq<parser::LineView>)
    ensures
        parser::export_of(a + b) == merged(parser::export_of(a), parser::export_of(b)),
{
    lemma_counts_add_up(a, b);
    assert(parser::export_of(a + b).records == merged(
        parser::export_of(a),
        parser::export_of(b),
    ).records);
}

pub proof fn lemma_counts_add_up(a: Seq<parser::LineView>, b: Seq<parser::LineView>)
    ensures
        parser::usage_records(a + b) == parser::usage_records(a) + parser::usage_records(b),
        parser::lost_rows(a + b) == parser::lost_rows(a) + parser::lost_rows(b),
        parser::unreadable_lines(a + b) == parser::unreadable_lines(a) + parser::unreadable_lines(
            b,
        ),
    decreases b.len(),
{
    if b.len() == 0 {
        assert(a + b == a);
        assert(parser::usage_records(a) + parser::usage_records(b) == parser::usage_records(a));
    } else {
        lemma_counts_add_up(a, b.drop_last());
        assert((a + b).drop_last() == a + b.drop_last());
        assert((a + b).last() == b.last());
        assert(parser::usage_records(a + b) == parser::usage_records(a) + parser::usage_records(b));
    }
}

/// One unreadable line costs itself and nothing else.
pub proof fn law_an_unreadable_line_costs_only_itself(
    a: Seq<parser::LineView>,
    b: Seq<parser::LineView>,
)
    ensures
        ({
            let with = parser::export_of(a + seq![parser::LineView::Unreadable] + b);
            let without = parser::export_of(a + b);
            &&& with.records == without.records
            &&& with.lagged_rows == without.lagged_rows
            &&& with.skipped_lines == without.skipped_lines + 1
        }),
{
    let bad = seq![parser::LineView::Unreadable];
    lemma_counts_add_up(a, b);
    lemma_counts_add_up(a + bad, b);
    lemma_counts_add_up(a, bad);
    reveal_with_fuel(parser::usage_records, 2);
    reveal_with_fuel(parser::lost_rows, 2);
    reveal_with_fuel(parser::unreadable_lines, 2);
    assert(bad.drop_last().len() == 0);
    assert(parser::usage_records(a) + parser::usage_records(bad) == parser::usage_records(a));
}

/// What the text of an export yields.
pub open spec fn export_of_text(s: Seq<char>) -> parser::ExportView {
    parser::export_of(parser::read_lines(text::lines(s)))
}

/// An export of whole lines with more text after it yields what the two parts yield,
/// taken together.
pub proof fn law_appended_text_adds_up(a: Seq<char>, b: Seq<char>)
    requires
        a.len() == 0 || a.last() == '\n',
    ensures
        export_of_text(a + b) == merged(export_of_text(a), export_of_text(b)),
{
    lemma_lines_add_up(a, b);
    lemma_read_lines_add_up(text::lines(a), text::lines(b));
    law_lines_add_up(parser::read_lines(text::lines(a)), parser::read_lines(text::lines(b)));
}

/// A half-written line after whole ones costs only itself.
pub proof fn law_a_truncated_line_costs_only_itself(a: Seq<char>, tail: Seq<char>)
    requires
        a.len() == 0 || a.last() == '\n',
        forall|i: int| 0 <= i < tail.len() ==> tail[i] != '\n',
        !parser::is_blank(tail),
        json::json_of_line(tail) is None,
    ensures
        export_of_text(a + tail) == (parser::ExportView {
            skipped_lines: export_of_text(a).skipped_lines + 1,
            ..export_of_text(a)
        }),
{
    law_appended_text_adds_up(a, tail);
    sequence::lemma_first_at(tail, '\n', tail.len() as int);
    if tail.len() == 0 {
        assert(text::trimmed(tail).len() == 0);
    }
    assert(text::lines(tail) == seq![tail]);
    reveal_with_fuel(parser::read_lines, 2);
    reveal_with_fuel(parser::usage_records, 2);
    reveal_with_fuel(parser::lost_rows, 2);
    reveal_with_fuel(parser::unreadable_lines, 2);
    let read = parser::read_lines(seq![tail]);
    assert(seq![tail].drop_last().len() == 0);
    assert(read == seq![parser::LineView::Unreadable]);
    assert(read.drop_last().len() == 0);
    assert(export_of_text(a + tail).records == export_of_text(a).records);
}

pub proof fn lemma_lines_add_up(a: Seq<char>, b: Seq<char>)
    requires
        a.len() == 0 || a.last() == '\n',
    ensures
        text::lines(a + b) == text::lines(a) + text::lines(b),
    decreases a.len(),
{
    if a.len() == 0 {
        assert(a + b == b);
        assert(text::lines(a) + text::lines(b) == text::lines(b));
    } else {
        let n = text::line_feed(a);
        sequence::lemma_first_at_bounds(a, '\n');
        sequence::lemma_first_at_bounds(a + b, '\n');
        assert forall|j: int| 0 <= j < n implies (a + b)[j] != '\n' by {
            assert((a + b)[j] == a[j]);
        }
        if n == a.len() {
            assert(a[a.len() - 1] == '\n');
        }
        sequence::lemma_first_at(a + b, '\n', n);
        assert((a + b).take(n) == a.take(n));
        assert((a + b).skip(n + 1) == a.skip(n + 1) + b);
        let rest = a.skip(n + 1);
        if rest.len() > 0 {
            assert(rest.last() == a.last());
        }
        lemma_lines_add_up(rest, b);
        let first = seq![text::without_return(a.take(n))];
        assert(first + (text::lines(rest) + text::lines(b)) == (first + text::lines(rest))
            + text::lines(b));
    }
}

pub proof fn lemma_read_lines_add_up(a: Seq<Seq<char>>, b: Seq<Seq<char>>)
    ensures
        parser::read_lines(a + b) == parser::read_lines(a) + parser::read_lines(b),
    decreases b.len(),
{
    if b.len() == 0 {
        assert(a + b == a);
        assert(parser::read_lines(a) + parser::read_lines(b) == parser::read_lines(a));
    } else {
        lemma_read_lines_add_up(a, b.drop_last());
        assert((a + b).drop_last() == a + b.drop_last());
        assert((a + b).last() == b.last());
        assert(parser::read_lines(a + b) == parser::read_lines(a) + parser::read_lines(b));
    }
}

/// The key tells calls apart: two calls have one key only where they have one trace
/// and one sequence number.
pub proof fn law_key_is_injective(t1: Seq<char>, s1: u64, t2: Seq<char>, s2: u64)
    requires
        parser::key_of(t1, s1) == parser::key_of(t2, s2),
    ensures
        t1 == t2,
        s1 == s2,
{
    reveal_strlit("skylark:");
    reveal_strlit(":");
    let (d1, d2) = (text::decimal(s1 as nat), text::decimal(s2 as nat));
    let (k1, k2) = (parser::key_of(t1, s1), parser::key_of(t2, s2));
    lemma_decimal_digits(s1 as nat);
    lemma_decimal_digits(s2 as nat);
    let n = k1.len() as int;
    assert(k1[n - 1 - d1.len()] == ':');
    assert(k2[n - 1 - d2.len()] == ':');
    if d1.len() < d2.len() {
        let j = d2.len() - 1 - d1.len();
        assert(k2[n - 1 - d1.len()] == d2[j]);
    } else if d2.len() < d1.len() {
        let j = d1.len() - 1 - d2.len();
        assert(k1[n - 1 - d2.len()] == d1[j]);
    }
    assert(d1.len() == d2.len());
    assert forall|i: int| 0 <= i < d1.len() implies d1[i] == d2[i] by {
        assert(k1[n - d1.len() + i] == d1[i]);
        assert(k2[n - d1.len() + i] == d2[i]);
    }
    assert(d1 == d2);
    lemma_decimal_injective(s1 as nat, s2 as nat);
    assert forall|i: int| 0 <= i < t1.len() implies t1[i] == t2[i] by {
        assert(k1[8 + i] == t1[i]);
        assert(k2[8 + i] == t2[i]);
    }
    assert(t1 == t2);
}

pub proof fn lemma_decimal_digits(n: nat)
    ensures
        text::decimal(n).len() >= 1,
        n >= 10 ==> text::decimal(n).len() >= 2,
        forall|i: int|
            0 <= i < text::decimal(n).len() ==> '0' <= #[trigger] text::decimal(n)[i] <= '9',
    decreases n,
{
    if n >= 10 {
        lemma_decimal_digits(n / 10);
    }
}

pub proof fn lemma_decimal_injective(a: nat, b: nat)
    requires
        text::decimal(a) == text::decimal(b),
    ensures
        a == b,
    decreases a,
{
    lemma_decimal_digits(a);
    lemma_decimal_digits(b);
    assert(text::decimal(a).last() == text::decimal(b).last());
    assert(text::decimal(a).last() as int == 48 + a % 10);
    assert(text::decimal(b).last() as int == 48 + b % 10);
    if a >= 10 && b >= 10 {
        assert(text::decimal(a).drop_last() == text::decimal(a / 10));
        assert(text::decimal(b).drop_last() == text::decimal(b / 10));
        lemma_decimal_injective(a / 10, b / 10);
    }
}

/// A digest is sixteen lower-case hexadecimal digits.
pub proof fn law_digest_shape(bytes: Seq<u8>)
    ensures
        ({
            let d = digest::hex(digest::fnv1a64(bytes) as nat, 16);
            &&& d.len() == 16
            &&& forall|i: int| 0 <= i < 16 ==> ('0' <= #[trigger] d[i] <= '9' || 'a' <= d[i] <= 'f')
        }),
{
    lemma_hex_shape(digest::fnv1a64(bytes) as nat, 16);
}

pub proof fn lemma_hex_shape(x: nat, n: nat)
    ensures
        digest::hex(x, n).len() == n,
        forall|i: int|
            0 <= i < n ==> ('0' <= #[trigger] digest::hex(x, n)[i] <= '9' || 'a' <= digest::hex(
                x,
                n,
            )[i] <= 'f'),
    decreases n,
{
    if n > 0 {
        lemma_hex_shape(x / 16, (n - 1) as nat);
    }
}

pub proof fn lemma_hex_injective(x: nat, y: nat, n: nat)
    requires
        digest::hex(x, n) == digest::hex(y, n),
        x < vstd::arithmetic::power::pow(16, n),
        y < vstd::arithmetic::power::pow(16, n),
    ensures
        x == y,
    decreases n,
{
    reveal(vstd::arithmetic::power::pow);
    if n > 0 {
        lemma_hex_shape(x / 16, (n - 1) as nat);
        lemma_hex_shape(y / 16, (n - 1) as nat);
        assert(digest::hex(x, n).drop_last() == digest::hex(x / 16, (n - 1) as nat));
        assert(digest::hex(y, n).drop_last() == digest::hex(y / 16, (n - 1) as nat));
        assert(digest::hex(x, n).last() == digest::hex(y, n).last());
        assert(digest::hex_char(x % 16) as int == if x % 16 < 10 { 48 + x % 16 } else { 87 + x % 16
        });
        assert(digest::hex_char(y % 16) as int == if y % 16 < 10 { 48 + y % 16 } else { 87 + y % 16
        });
        assert(digest::hex(x, n).last() == digest::hex_char(x % 16));
        assert(digest::hex(y, n).last() == digest::hex_char(y % 16));
        assert(x % 16 == y % 16);
        lemma_hex_injective(x / 16, y / 16, (n - 1) as nat);
    } else {
        vstd::arithmetic::power::lemma_pow0(16);
    }
}

/// Multiplying by the prime can be undone.
pub proof fn lemma_prime_step_injective(x: u64, y: u64)
    requires
        (x * digest::PRIME) % 0x1_0000_0000_0000_0000 == (y * digest::PRIME)
            % 0x1_0000_0000_0000_0000,
    ensures
        x == y,
{
    lemma_undo_prime(x as int);
    lemma_undo_prime(y as int);
}

pub proof fn lemma_undo_prime(x: int)
    requires
        0 <= x < 0x1_0000_0000_0000_0000,
    ensures
        (((x * digest::PRIME) % 0x1_0000_0000_0000_0000) * 0xce965057aff6957b)
            % 0x1_0000_0000_0000_0000 == x,
{
    let m = 0x1_0000_0000_0000_0000int;
    let p = digest::PRIME as int;
    let q = 0xce965057aff6957bint;
    vstd::arithmetic::div_mod::lemma_mul_mod_noop_left(x * p, q, m);
    let k = (p * q - 1) / m;
    assert(p * q == 1 + k * m);
    assert((x * p) * q == x * (p * q)) by (nonlinear_arith);
    assert(x * (1 + k * m) == m * (x * k) + x) by (nonlinear_arith);
    vstd::arithmetic::div_mod::lemma_mod_multiples_vanish(x * k, x, m);
    vstd::arithmetic::div_mod::lemma_small_mod(x as nat, m as nat);
}

/// A byte that moves is noticed: two texts of one length that differ in exactly one
/// byte have different digests.
pub proof fn law_one_changed_byte_changes_the_digest(a: Seq<u8>, b: Seq<u8>, at: int)
    requires
        a.len() == b.len(),
        0 <= at < a.len(),
        a[at] != b[at],
        forall|i: int| 0 <= i < a.len() && i != at ==> a[i] == b[i],
    ensures
        digest::fnv1a64(a) != digest::fnv1a64(b),
        digest::hex(digest::fnv1a64(a) as nat, 16) != digest::hex(digest::fnv1a64(b) as nat, 16),
{
    lemma_one_changed_byte(a, b, at);
    let (x, y) = (digest::fnv1a64(a), digest::fnv1a64(b));
    assert(vstd::arithmetic::power::pow(16, 16) == 0x1_0000_0000_0000_0000) by {
        reveal_with_fuel(vstd::arithmetic::power::pow, 17);
    }
    if digest::hex(x as nat, 16) == digest::hex(y as nat, 16) {
        lemma_hex_injective(x as nat, y as nat, 16);
    }
}

pub proof fn lemma_one_changed_byte(a: Seq<u8>, b: Seq<u8>, at: int)
    requires
        a.len() == b.len(),
        0 <= at < a.len(),
        a[at] != b[at],
        forall|i: int| 0 <= i < a.len() && i != at ==> a[i] == b[i],
    ensures
        digest::fnv1a64(a) != digest::fnv1a64(b),
    decreases a.len(),
{
    let (x, y) = (digest::fnv1a64(a.drop_last()), digest::fnv1a64(b.drop_last()));
    let (c, d) = (a.last(), b.last());
    if at == a.len() - 1 {
        assert(a.drop_last() == b.drop_last());
        assert(c != d ==> x ^ (c as u64) != x ^ (d as u64)) by (bit_vector);
    } else {
        lemma_one_changed_byte(a.drop_last(), b.drop_last(), at);
        assert(x != y ==> x ^ (c as u64) != y ^ (c as u64)) by (bit_vector);
    }
    if digest::fnv1a64(a) == digest::fnv1a64(b) {
        lemma_prime_step_injective(x ^ (c as u64), y ^ (d as u64));
    }
}

/// An unfinished line is not read, and the offset stays before it: the offset follows
/// a line feed, and none comes after it.
pub proof fn law_an_unfinished_line_is_left(bytes: Seq<u8>)
    ensures
        ({
            let n = session::consumed(bytes);
            &&& 0 <= n <= bytes.len()
            &&& n > 0 ==> bytes[n - 1] == 10u8
            &&& forall|j: int| n <= j < bytes.len() ==> bytes[j] != 10u8
            &&& session::log_records(bytes) == session::log_records(bytes.take(n))
        }),
{
    session::lemma_consumed_bounds(bytes);
    lemma_lines_up_to_offset(bytes);
}

pub proof fn lemma_no_line_feed_no_line(bytes: Seq<u8>)
    requires
        forall|j: int| 0 <= j < bytes.len() ==> bytes[j] != 10u8,
    ensures
        session::whole_lines(bytes) == Seq::<Seq<u8>>::empty(),
{
    sequence::lemma_first_at(bytes, 10u8, bytes.len() as int);
}

pub proof fn lemma_lines_up_to_offset(bytes: Seq<u8>)
    ensures
        session::whole_lines(bytes) == session::whole_lines(bytes.take(session::consumed(bytes))),
{
    let n = session::consumed(bytes);
    session::lemma_consumed_bounds(bytes);
    lemma_whole_lines_add_up(bytes.take(n), bytes.skip(n));
    assert(bytes.take(n) + bytes.skip(n) == bytes);
    lemma_no_line_feed_no_line(bytes.skip(n));
    assert(session::whole_lines(bytes.take(n)) + Seq::<Seq<u8>>::empty() == session::whole_lines(
        bytes.take(n),
    ));
}

pub proof fn lemma_whole_lines_add_up(a: Seq<u8>, b: Seq<u8>)
    requires
        a.len() == 0 || a.last() == 10u8,
    ensures
        session::whole_lines(a + b) == session::whole_lines(a) + session::whole_lines(b),
    decreases a.len(),
{
    if a.len() == 0 {
        assert(a + b == b);
        assert(session::whole_lines(a) + session::whole_lines(b) == session::whole_lines(b));
    } else {
        let n = session::line_feed(a);
        sequence::lemma_first_at_bounds(a, 10u8);
        if n == a.len() {
            assert(a[a.len() - 1] == 10u8);
        }
        assert forall|j: int| 0 <= j < n implies (a + b)[j] != 10u8 by {
            assert((a + b)[j] == a[j]);
        }
        sequence::lemma_first_at(a + b, 10u8, n);
        assert((a + b).take(n + 1) == a.take(n + 1));
        assert((a + b).skip(n + 1) == a.skip(n + 1) + b);
        let rest = a.skip(n + 1);
        if rest.len() > 0 {
            assert(rest.last() == a.last());
        }
        lemma_whole_lines_add_up(rest, b);
        let first = seq![a.take(n + 1)];
        assert(first + (session::whole_lines(rest) + session::whole_lines(b)) == (first
            + session::whole_lines(rest)) + session::whole_lines(b));
    }
}

pub proof fn lemma_log_records_add_up(a: Seq<u8>, b: Seq<u8>)
    requires
        a.len() == 0 || a.last() == 10u8,
    ensures
        session::log_records(a + b) == session::log_records(a) + session::log_records(b),
{
    lemma_whole_lines_add_up(a, b);
    let (x, y) = (session::whole_lines(a), session::whole_lines(b));
    assert(session::line_texts(x + y) == session::line_texts(x) + session::line_texts(y));
    lemma_read_lines_add_up(session::line_texts(x), session::line_texts(y));
    lemma_counts_add_up(
        parser::read_lines(session::line_texts(x)),
        parser::read_lines(session::line_texts(y)),
    );
}

pub proof fn lemma_keys_add_up(a: Seq<parser::RecordView>, b: Seq<parser::RecordView>)
    ensures
        session::keys(a + b) == session::keys(a).union(session::keys(b)),
    decreases b.len(),
{
    if b.len() == 0 {
        assert(a + b == a);
        assert(session::keys(a).union(session::keys(b)) == session::keys(a));
    } else {
        lemma_keys_add_up(a, b.drop_last());
        assert((a + b).drop_last() == a + b.drop_last());
        assert((a + b).last() == b.last());
        assert(session::keys(a + b) == session::keys(a).union(session::keys(b)));
    }
}

pub proof fn lemma_fresh_adds_up(
    a: Seq<parser::RecordView>,
    b: Seq<parser::RecordView>,
    seen: Set<Seq<char>>,
)
    ensures
        session::fresh(a + b, seen) == session::fresh(a, seen) + session::fresh(
            b,
            seen.union(session::keys(a)),
        ),
    decreases b.len(),
{
    let later = seen.union(session::keys(a));
    if b.len() == 0 {
        assert(a + b == a);
        assert(session::fresh(a, seen) + session::fresh(b, later) == session::fresh(a, seen));
    } else {
        lemma_fresh_adds_up(a, b.drop_last(), seen);
        lemma_keys_add_up(a, b.drop_last());
        assert((a + b).drop_last() == a + b.drop_last());
        assert((a + b).last() == b.last());
        assert(session::fresh(a + b, seen) == session::fresh(a, seen) + session::fresh(b, later));
    }
}

/// A resumed parse reads only what was appended, and misses nothing: a sync of the
/// longer file from where the sync of the shorter one stopped yields, after the calls
/// of the first, exactly the calls that a full parse of the longer file yields, and
/// stops where that one does.
pub proof fn law_resuming_reads_what_was_appended(
    contents: Seq<u8>,
    appended: Seq<u8>,
    seen: Set<Seq<char>>,
)
    ensures
        ({
            let n = session::consumed(contents);
            let longer = contents + appended;
            let rest = longer.skip(n);
            let first = session::log_records(contents);
            &&& session::log_records(longer) == first + session::log_records(rest)
            &&& session::fresh(session::log_records(longer), seen) == session::fresh(first, seen)
                + session::fresh(session::log_records(rest), seen.union(session::keys(first)))
            &&& session::consumed(longer) == n + session::consumed(rest)
        }),
{
    let n = session::consumed(contents);
    let longer = contents + appended;
    let done = contents.take(n);
    let rest = longer.skip(n);
    session::lemma_consumed_bounds(contents);
    law_an_unfinished_line_is_left(contents);
    assert(done + rest == longer);
    lemma_log_records_add_up(done, rest);
    lemma_fresh_adds_up(session::log_records(contents), session::log_records(rest), seen);
    session::lemma_consumed_bounds(rest);
    let m = session::consumed(rest);
    assert forall|j: int| n + m <= j < longer.len() implies longer[j] != 10u8 by {
        assert(rest[j - n] == longer[j]);
    }
    if m > 0 {
        assert(rest[m - 1] == longer[n + m - 1]);
    }
    session::lemma_consumed(longer, n + m);
}

/// A cursor survives what is appended: the file it was made for accepts it at its
/// offset, however much longer the file has become.
pub proof fn law_a_cursor_survives_an_append(
    contents: Seq<u8>,
    appended: Seq<u8>,
    cursor: session::SourceCursor,
)
    requires
        cursor.v@ == session::PARSE_VERSION@,
        cursor.offset == session::consumed(contents),
        cursor.probe@ == session::probe_at(contents, session::consumed(contents)),
    ensures
        session::start_of(Some(cursor), contents + appended) == cursor.offset,
{
    let n = session::consumed(contents);
    session::lemma_consumed_bounds(contents);
    let from = n - session::probe_len(n);
    assert(contents.subrange(from, n) == (contents + appended).subrange(from, n));
}

/// A sync of a file that has not changed, from where the last one stopped, does nothing:
/// it starts and ends there, finds no record and so no call, adds no key, and its cursor
/// is the one it was given. `start` is where the last one started.
pub proof fn law_an_unchanged_file_yields_nothing(
    contents: Seq<u8>,
    start: int,
    cursor: session::SourceCursor,
    seen: Set<Seq<char>>,
    project: Seq<char>,
)
    requires
        0 <= start <= contents.len(),
        cursor.v@ == session::PARSE_VERSION@,
        cursor.offset == start + session::consumed(contents.skip(start)),
        cursor.probe@ == session::probe_at(contents, cursor.offset as int),
    ensures
        ({
            let again = session::start_of(Some(cursor), contents);
            let tail = contents.skip(again);
            let end = again + session::consumed(tail);
            &&& again == cursor.offset
            &&& session::log_records(tail).len() == 0
            &&& session::rows(session::fresh(session::log_records(tail), seen), project).len() == 0
            &&& seen.union(session::keys(session::log_records(tail))) == seen
            &&& end == cursor.offset
            &&& session::probe_at(contents, end) == cursor.probe@
        }),
{
    let before = contents.skip(start);
    let n = session::consumed(before);
    session::lemma_consumed_bounds(before);
    let tail = contents.skip(start + n);
    assert forall|j: int| 0 <= j < tail.len() implies tail[j] != 10u8 by {
        assert(tail[j] == before[n + j]);
    }
    lemma_no_line_feed_no_line(tail);
    session::lemma_consumed(tail, 0);
    assert(session::line_texts(Seq::empty()) == Seq::<Seq<char>>::empty());
    assert(session::log_records(tail) == Seq::<parser::RecordView>::empty());
    assert(seen.union(session::keys(session::log_records(tail))) == seen);
}

/// A sync in steps is a sync of the whole file: where a caller reads the file's length,
/// the window of the cursor's probe where it is worth reading, and the window of the next
/// probe, the steps start, and probe, where the sync of the file's contents does.
pub proof fn law_a_sync_in_steps_is_a_sync_of_the_file(
    contents: Seq<u8>,
    len: u64,
    cursor: Option<session::SourceCursor>,
    window: Option<Seq<u8>>,
    end: int,
)
    requires
        len == contents.len(),
        match cursor {
            Some(c) => session::is_candidate(c, Some(len)) ==> window == Some(
                session::window_of(contents, c.offset as int),
            ),
            None => true,
        },
        0 <= end <= contents.len(),
    ensures
        ({
            let probe = match cursor {
                Some(c) => session::probe_of(c.offset as int, window),
                None => None,
            };
            session::resume_at(cursor, Some(len), probe) == session::start_of(cursor, contents)
        }),
        session::probe_of(end, Some(session::window_of(contents, end))) == Some(
            session::probe_at(contents, end),
        ),
{
    if end == 0 {
        assert(session::window_of(contents, 0) == Seq::<u8>::empty());
    }
}

/// A cursor does not survive a changed byte in its probe: the file is read whole.
pub proof fn law_a_changed_byte_in_the_probe_rejects_the_cursor(
    contents: Seq<u8>,
    changed: Seq<u8>,
    at: int,
    cursor: session::SourceCursor,
)
    requires
        cursor.offset <= contents.len(),
        cursor.probe@ == session::probe_at(contents, cursor.offset as int),
        changed.len() == contents.len(),
        cursor.offset - session::probe_len(cursor.offset as int) <= at < cursor.offset,
        changed[at] != contents[at],
        forall|i: int|
            0 <= i < contents.len() && i != at ==> #[trigger] changed[i] == contents[i],
    ensures
        session::start_of(Some(cursor), changed) == 0,
{
    let n = cursor.offset as int;
    let from = n - session::probe_len(n);
    law_one_changed_byte_changes_the_digest(
        contents.subrange(from, n),
        changed.subrange(from, n),
        at - from,
    );
}

/// A log holds the records of its text: a full parse of a file that starts with whole
/// lines of UTF-8 yields the calls of the records that the export with those lines yields,
/// each key once, and stops after them. What follows without a line feed adds nothing,
/// whatever it is.
pub proof fn law_a_log_holds_the_records_of_its_text(
    s: Seq<char>,
    unfinished: Seq<u8>,
    seen: Set<Seq<char>>,
    project: Seq<char>,
)
    requires
        s.len() == 0 || s.last() == '\n',
        forall|j: int| 0 <= j < unfinished.len() ==> unfinished[j] != 10u8,
    ensures
        ({
            let contents = vstd::utf8::encode_utf8(s) + unfinished;
            let start = session::start_of(None, contents);
            let tail = contents.skip(start);
            &&& start == 0
            &&& session::log_records(tail) == export_of_text(s).records
            &&& session::rows(session::fresh(session::log_records(tail), seen), project)
                == session::rows(session::fresh(export_of_text(s).records, seen), project)
            &&& session::consumed(tail) == vstd::utf8::encode_utf8(s).len()
        }),
{
    let bytes = vstd::utf8::encode_utf8(s);
    let contents = bytes + unfinished;
    assert(contents.skip(0) == contents);
    lemma_lines_of_encoded(s);
    lemma_read_bare_lines(text::lines(s));
    if s.len() > 0 {
        assert(s == s.drop_last() + seq!['\n']);
        lemma_encoding_adds_up(s.drop_last(), seq!['\n']);
        lemma_encoded_line_feed();
        assert(bytes.last() == 10u8);
        assert(contents[bytes.len() - 1] == 10u8);
    }
    lemma_log_records_add_up(bytes, unfinished);
    lemma_no_line_feed_no_line(unfinished);
    assert(session::line_texts(Seq::empty()) == Seq::<Seq<char>>::empty());
    assert(session::log_records(unfinished) == Seq::<parser::RecordView>::empty());
    assert(session::log_records(contents) == session::log_records(bytes));
    assert forall|j: int| bytes.len() <= j < contents.len() implies contents[j] != 10u8 by {
        assert(contents[j] == unfinished[j - bytes.len()]);
    }
    session::lemma_consumed(contents, bytes.len() as int);
}

/// `lines` without the carriage returns at their ends.
pub open spec fn bare_lines(lines: Seq<Seq<char>>) -> Seq<Seq<char>> {
    Seq::new(lines.len(), |i: int| text::bare(lines[i]))
}

pub proof fn lemma_read_bare_lines(lines: Seq<Seq<char>>)
    ensures
        parser::read_lines(bare_lines(lines)) == parser::read_lines(lines),
    decreases lines.len(),
{
    if lines.len() > 0 {
        let line = lines.last();
        lemma_read_bare_lines(lines.drop_last());
        assert(bare_lines(lines).drop_last() == bare_lines(lines.drop_last()));
        assert(bare_lines(lines).last() == text::bare(line));
        lemma_trim_end(line, text::carriage_return());
        lemma_blank(line);
        lemma_blank(text::bare(line));
        assert forall|i: int| 0 <= i < line.len() && parser::is_blank(
            text::bare(line),
        ) implies text::is_white_space(#[trigger] line[i]) by {
            if i < text::bare(line).len() {
                assert(text::bare(line)[i] == line[i]);
            }
        }
        assert forall|i: int| 0 <= i < text::bare(line).len() && parser::is_blank(
            line,
        ) implies text::is_white_space(#[trigger] text::bare(line)[i]) by {
            assert(text::bare(line)[i] == line[i]);
        }
    } else {
        assert(bare_lines(lines) == lines);
    }
}

/// A line is blank where all of it is white space.
pub proof fn lemma_blank(s: Seq<char>)
    ensures
        parser::is_blank(s) <==> forall|i: int|
            0 <= i < s.len() ==> text::is_white_space(#[trigger] s[i]),
{
    let inner = text::trim_start_by(s, text::white());
    lemma_trim_start(s, text::white());
    lemma_trim_end(inner, text::white());
    if inner.len() > 0 {
        assert(inner[0] == s[s.len() - inner.len()]);
    }
}

pub proof fn lemma_trim_start(s: Seq<char>, p: spec_fn(char) -> bool)
    ensures
        ({
            let t = text::trim_start_by(s, p);
            let n = s.len() - t.len();
            &&& 0 <= n
            &&& t == s.skip(n)
            &&& t.len() > 0 ==> !p(t[0])
            &&& forall|i: int| 0 <= i < n ==> p(#[trigger] s[i])
        }),
    decreases s.len(),
{
    if s.len() > 0 && p(s[0]) {
        let rest = s.drop_first();
        lemma_trim_start(rest, p);
        let n = s.len() - text::trim_start_by(s, p).len();
        assert(rest.skip(n - 1) == s.skip(n));
        assert forall|i: int| 0 <= i < n implies p(#[trigger] s[i]) by {
            if i > 0 {
                assert(rest[i - 1] == s[i]);
            }
        }
    } else {
        assert(s.skip(0) == s);
    }
}

pub proof fn lemma_lines_of_encoded(s: Seq<char>)
    requires
        s.len() == 0 || s.last() == '\n',
    ensures
        session::line_texts(session::whole_lines(vstd::utf8::encode_utf8(s))) == bare_lines(
            text::lines(s),
        ),
    decreases s.len(),
{
    let bytes = vstd::utf8::encode_utf8(s);
    if s.len() > 0 {
        let n = text::line_feed(s);
        sequence::lemma_first_at_bounds(s, '\n');
        if n == s.len() {
            assert(s[s.len() - 1] == '\n');
        }
        let (head, rest) = (s.take(n), s.skip(n + 1));
        let line = s.take(n + 1);
        if rest.len() > 0 {
            assert(rest.last() == s.last());
        }
        assert(line == head + seq!['\n'] && s == line + rest);
        lemma_encoding_adds_up(line, rest);
        lemma_encoding_adds_up(head, seq!['\n']);
        lemma_encoded_line_feed();
        lemma_encoded_without_line_feed(head);
        let (x, y) = (vstd::utf8::encode_utf8(head), vstd::utf8::encode_utf8(line));
        let z = vstd::utf8::encode_utf8(rest);
        assert(y == x + seq![10u8] && bytes == y + z);
        assert forall|j: int| 0 <= j < x.len() implies bytes[j] != 10u8 by {
            assert(bytes[j] == x[j]);
        }
        sequence::lemma_first_at(bytes, 10u8, x.len() as int);
        assert(bytes.take(x.len() as int + 1) == y);
        assert(bytes.skip(x.len() as int + 1) == z);
        vstd::utf8::encode_utf8_valid_utf8(line);
        vstd::utf8::encode_utf8_decode_utf8(line);
        let first = text::without_return(head);
        assert(text::lines(s) == seq![first] + text::lines(rest));
        lemma_line_ending(head);
        assert(session::line_text(y) == text::bare(first));
        lemma_lines_of_encoded(rest);
        let more = session::whole_lines(z);
        assert(session::whole_lines(bytes) == seq![y] + more);
        assert(session::line_texts(seq![y] + more) == seq![text::bare(first)]
            + session::line_texts(more));
        assert(bare_lines(text::lines(s)) == seq![text::bare(first)] + bare_lines(
            text::lines(rest),
        ));
    } else {
        assert(session::line_texts(session::whole_lines(bytes)) == bare_lines(text::lines(s)));
    }
}

/// A line without its ending is the line without its line feed and its carriage returns.
pub proof fn lemma_line_ending(head: Seq<char>)
    requires
        forall|j: int| 0 <= j < head.len() ==> head[j] != '\n',
    ensures
        text::trim_end_by(head + seq!['\n'], session::line_end()) == text::bare(
            text::without_return(head),
        ),
{
    assert((head + seq!['\n']).drop_last() == head);
    lemma_only_returns(head);
}

pub proof fn lemma_only_returns(s: Seq<char>)
    requires
        forall|j: int| 0 <= j < s.len() ==> s[j] != '\n',
    ensures
        text::trim_end_by(s, session::line_end()) == text::bare(s),
    decreases s.len(),
{
    if s.len() > 0 && s.last() == '\r' {
        lemma_only_returns(s.drop_last());
    }
}

pub proof fn lemma_encoding_adds_up(a: Seq<char>, b: Seq<char>)
    ensures
        vstd::utf8::encode_utf8(a + b) == vstd::utf8::encode_utf8(a) + vstd::utf8::encode_utf8(b),
    decreases a.len(),
{
    if a.len() == 0 {
        assert(a + b == b);
        assert(vstd::utf8::encode_utf8(a) + vstd::utf8::encode_utf8(b) == vstd::utf8::encode_utf8(b));
    } else {
        assert((a + b).drop_first() == a.drop_first() + b);
        lemma_encoding_adds_up(a.drop_first(), b);
        let first = vstd::utf8::encode_scalar(a[0] as u32);
        let (x, y) = (vstd::utf8::encode_utf8(a.drop_first()), vstd::utf8::encode_utf8(b));
        assert(first + (x + y) == (first + x) + y);
    }
}

pub proof fn lemma_encoded_line_feed()
    ensures
        vstd::utf8::encode_utf8(seq!['\n']) == seq![10u8],
{
    reveal_with_fuel(vstd::utf8::encode_utf8, 2);
    assert(seq!['\n'].drop_first().len() == 0);
    assert(vstd::utf8::leading_byte_width_1(10) == 10) by (bit_vector);
    assert(vstd::utf8::encode_utf8(seq!['\n']) == seq![10u8]);
}

/// Only a line feed has the byte of a line feed in its encoding.
pub proof fn lemma_encoded_without_line_feed(s: Seq<char>)
    requires
        forall|j: int| 0 <= j < s.len() ==> s[j] != '\n',
    ensures
        forall|j: int|
            0 <= j < vstd::utf8::encode_utf8(s).len() ==> vstd::utf8::encode_utf8(s)[j] != 10u8,
    decreases s.len(),
{
    if s.len() > 0 {
        assert forall|j: int| 0 <= j < s.len() - 1 implies s.drop_first()[j] != '\n' by {
            assert(s.drop_first()[j] == s[j + 1]);
        }
        lemma_encoded_without_line_feed(s.drop_first());
        let c = s[0] as u32;
        assert(c < 0x80 && c != 10 ==> vstd::utf8::leading_byte_width_1(c) != 10) by (bit_vector);
        assert(vstd::utf8::leading_byte_width_2(c) != 10) by (bit_vector);
        assert(vstd::utf8::leading_byte_width_3(c) != 10) by (bit_vector);
        assert(vstd::utf8::leading_byte_width_4(c) != 10) by (bit_vector);
        assert(vstd::utf8::last_continuation_byte(c) != 10) by (bit_vector);
        assert(vstd::utf8::second_last_continuation_byte(c) != 10) by (bit_vector);
        assert(vstd::utf8::third_last_continuation_byte(c) != 10) by (bit_vector);
        vstd::utf8::char_u32_cast(s[0], c);
        assert(c as char != '\n');
        let first = vstd::utf8::encode_scalar(c);
        let rest = vstd::utf8::encode_utf8(s.drop_first());
        let all = vstd::utf8::encode_utf8(s);
        assert forall|j: int| 0 <= j < all.len() implies all[j] != 10u8 by {
            if j >= first.len() {
                assert(all[j] == rest[j - first.len()]);
            }
        }
    }
}

/// A record seen twice is one call: the keys of the calls are new and differ from each
/// other.
pub proof fn law_each_key_is_counted_once(
    records: Seq<parser::RecordView>,
    seen: Set<Seq<char>>,
)
    ensures
        ({
            let new = session::fresh(records, seen);
            &&& forall|i: int|
                0 <= i < new.len() ==> !seen.contains(#[trigger] new[i].dedup_key)
                    && session::keys(records).contains(new[i].dedup_key)
            &&& forall|i: int, j: int|
                0 <= i < j < new.len() ==> #[trigger] new[i].dedup_key != #[trigger] new[j].dedup_key
        }),
    decreases records.len(),
{
    if records.len() > 0 {
        law_each_key_is_counted_once(records.drop_last(), seen);
    }
}

/// No record is lost: the keys seen after a parse are those seen before and those of
/// the calls.
pub proof fn law_no_key_is_lost(records: Seq<parser::RecordView>, seen: Set<Seq<char>>)
    ensures
        seen.union(session::keys(records)) == seen.union(
            session::keys(session::fresh(records, seen)),
        ),
    decreases records.len(),
{
    if records.len() > 0 {
        let before = records.drop_last();
        law_no_key_is_lost(before, seen);
        let new = session::fresh(before, seen);
        let last = records.last();
        assert(new.push(last).drop_last() == new);
        let (x, y) = (session::keys(before), session::keys(new));
        assert forall|k: Seq<char>| seen.contains(k) || x.contains(k) <==> seen.contains(k)
            || y.contains(k) by {
            assert(seen.union(x).contains(k) <==> seen.union(y).contains(k));
        }
        assert(seen.union(session::keys(records)) == seen.union(
            session::keys(session::fresh(records, seen)),
        ));
    }
}

/// Reading the same records again yields no calls.
pub proof fn law_a_second_reading_yields_nothing(
    records: Seq<parser::RecordView>,
    seen: Set<Seq<char>>,
)
    requires
        session::keys(records).subset_of(seen),
    ensures
        session::fresh(records, seen).len() == 0,
    decreases records.len(),
{
    if records.len() > 0 {
        assert(session::keys(records).contains(records.last().dedup_key));
        assert(session::keys(records.drop_last()).subset_of(session::keys(records)));
        law_a_second_reading_yields_nothing(records.drop_last(), seen);
    }
}

/// The identifiers and the labels of the tools. A name of one word is its own label, and
/// its identifier is that word in lower case; the one name of two words is labelled by the
/// first of them.
pub proof fn law_tool_names()
    ensures
        call::id_of(Tool::ClaudeCode) == lowered("ClaudeCode"@.take(6)) + "-code"@,
        call::label_of(Tool::ClaudeCode) == "ClaudeCode"@.take(6),
        call::id_of(Tool::Cursor) == "cursor"@,
        call::label_of(Tool::Cursor) == "Cursor"@,
        call::id_of(Tool::Codex) == "codex"@,
        call::label_of(Tool::Codex) == "Codex"@,
        call::id_of(Tool::Copilot) == "copilot"@,
        call::label_of(Tool::Copilot) == "Copilot"@,
        call::id_of(Tool::Gemini) == "gemini"@,
        call::label_of(Tool::Gemini) == "Gemini"@,
        call::id_of(Tool::Skylark) == config::TOOL_ID@,
        call::label_of(Tool::Skylark) == config::DISPLAY_NAME@,
{
    reveal_strlit("ClaudeCode");
    reveal_strlit("-code");
    reveal_strlit("Cursor");
    reveal_strlit("cursor");
    reveal_strlit("Codex");
    reveal_strlit("codex");
    reveal_strlit("Copilot");
    reveal_strlit("copilot");
    reveal_strlit("Gemini");
    reveal_strlit("gemini");
    reveal_strlit("Skylark");
    reveal_strlit("skylark");
    lemma_one_word("Cursor"@);
    lemma_one_word("Codex"@);
    lemma_one_word("Copilot"@);
    lemma_one_word("Gemini"@);
    lemma_one_word("Skylark"@);
    let name = "ClaudeCode"@;
    let (first, second) = (name.take(6), name.skip(6));
    assert(name == first + second);
    lemma_two_words(first, second);
    assert(seq!['-'] + lowered(second) == "-code"@);
    assert(lowered(first) + seq!['-'] + lowered(second) == lowered(first) + (seq!['-'] + lowered(
        second,
    )));
    assert(lowered("Cursor"@) == "cursor"@);
    assert(lowered("Codex"@) == "codex"@);
    assert(lowered("Copilot"@) == "copilot"@);
    assert(lowered("Gemini"@) == "gemini"@);
    assert(lowered("Skylark"@) == "skylark"@);
}

/// `s` in lower case.
pub open spec fn lowered(s: Seq<char>) -> Seq<char> {
    Seq::new(s.len(), |i: int| text::lower(s[i]))
}

/// Whether `s` is one word: no capital letter follows its first letter.
pub open spec fn is_one_word(s: Seq<char>) -> bool {
    s.len() > 0 && forall|i: int| 1 <= i < s.len() ==> !call::is_capital(#[trigger] s[i])
}

pub proof fn lemma_one_word(s: Seq<char>)
    requires
        is_one_word(s),
    ensures
        call::hyphenated(s) == lowered(s),
        call::first_word(s) == s,
    decreases s.len(),
{
    lemma_word_rest(s.drop_first(), s.len() - 1);
    assert(s.take(s.len() as int) == s);
    let before = s.drop_last();
    if s.len() > 1 {
        assert(is_one_word(before));
        lemma_one_word(before);
        assert(!call::is_capital(s[s.len() - 1]));
    } else {
        assert(call::hyphenated(before) == Seq::<char>::empty());
    }
    assert(call::hyphenated(s) == lowered(s));
}

pub proof fn lemma_two_words(a: Seq<char>, b: Seq<char>)
    requires
        is_one_word(a),
        is_one_word(b),
        call::is_capital(b[0]),
    ensures
        call::hyphenated(a + b) == lowered(a) + seq!['-'] + lowered(b),
        call::first_word(a + b) == a,
    decreases b.len(),
{
    let s = a + b;
    lemma_word_rest(s.drop_first(), a.len() - 1);
    assert(s.take(a.len() as int) == a);
    lemma_one_word(a);
    let before = b.drop_last();
    assert(s.drop_last() == a + before);
    assert(s.last() == b.last());
    if b.len() > 1 {
        assert(is_one_word(before));
        lemma_two_words(a, before);
        assert(!call::is_capital(b[b.len() - 1]));
    } else {
        assert(a + before == a);
    }
    assert(call::hyphenated(s) == lowered(a) + seq!['-'] + lowered(b));
}

pub proof fn lemma_word_rest(s: Seq<char>, n: int)
    requires
        0 <= n <= s.len(),
        forall|i: int| 0 <= i < n ==> !call::is_capital(#[trigger] s[i]),
        n < s.len() ==> call::is_capital(s[n]),
    ensures
        call::word_rest(s) == n,
    decreases n,
{
    if n > 0 {
        assert forall|i: int| 0 <= i < n - 1 implies !call::is_capital(
            #[trigger] s.drop_first()[i],
        ) by {
            assert(s.drop_first()[i] == s[i + 1]);
        }
        lemma_word_rest(s.drop_first(), n - 1);
    }
}

/// Every call row of this adapter is filed under its own tool and no other.
pub proof fn law_calls_are_filed_under_skylark(
    record: parser::RecordView,
    project: Seq<char>,
    tool: Tool,
)
    ensures
        parser::call_of(record, project).tool == call::id_of(tool) <==> tool == Tool::Skylark,
{
    law_tool_names();
    reveal_strlit("ClaudeCode");
    reveal_strlit("-code");
    reveal_strlit("skylark");
    reveal_strlit("cursor");
    reveal_strlit("codex");
    reveal_strlit("copilot");
    reveal_strlit("gemini");
    assert("skylark"@[0] != "copilot"@[0]);
}

/// Every tool is found by its own identifier, and labelled by its own label.
pub proof fn law_tools_are_found_by_their_identifiers(tool: Tool)
    ensures
        call::tool_with(call::id_of(tool)) == Some(tool),
        call::short_label(call::id_of(tool)) == call::label_of(tool),
{
    law_tool_names();
    reveal_strlit("ClaudeCode");
    reveal_strlit("-code");
    reveal_strlit("skylark");
    reveal_strlit("cursor");
    reveal_strlit("codex");
    reveal_strlit("copilot");
    reveal_strlit("gemini");
    let (a, b, c) = (
        call::id_of(Tool::ClaudeCode),
        call::id_of(Tool::Cursor),
        call::id_of(Tool::Codex),
    );
    let (d, e, f) = (
        call::id_of(Tool::Copilot),
        call::id_of(Tool::Gemini),
        call::id_of(Tool::Skylark),
    );
    assert(a.len() == 11 && b.len() == 6 && c.len() == 5 && d.len() == 7 && e.len() == 6 && f.len()
        == 7);
    assert(b[0] == 'c' && e[0] == 'g');
    assert(d[0] == 'c' && f[0] == 's');
    match tool {
        Tool::ClaudeCode => {},
        Tool::Cursor => {},
        Tool::Codex => {},
        Tool::Copilot => {},
        Tool::Gemini => {},
        Tool::Skylark => {},
    }
}

/// The fingerprint of a source is never the one that all tools share, so a session
/// archived under that one is parsed again, and it changes with it.
pub proof fn law_fingerprint_is_marked(a: Seq<char>, b: Seq<char>)
    ensures
        adapter::fingerprint_of(a) != a,
        adapter::fingerprint_of(a) == adapter::fingerprint_of(b) ==> a == b,
{
    reveal_strlit(":");
    let (x, y) = (adapter::fingerprint_of(a), adapter::fingerprint_of(b));
    assert(x.len() > a.len());
    if x == y {
        let n = x.len() - a.len();
        assert(x.skip(n) == a);
        assert(y.skip(n) == b);
    }
}

/// The logs in a directory have one emission order.
pub proof fn law_emission_order_is_unique<P>(
    entries: Seq<discovery::DirEntry<P>>,
    a: Seq<usize>,
    b: Seq<usize>,
)
    requires
        discovery::is_emission_order(entries, a),
        discovery::is_emission_order(entries, b),
    ensures
        a == b,
{
    assert forall|p: usize| a.contains(p) <==> b.contains(p) by {}
    ordering::law_order_is_unique(a, b, discovery::lower_index(entries));
}

/// In emission order a log with a lower number comes first, however the numbers are
/// written.
pub proof fn law_lower_numbers_come_first<P>(
    entries: Seq<discovery::DirEntry<P>>,
    order: Seq<usize>,
    a: int,
    b: int,
)
    requires
        discovery::is_emission_order(entries, order),
        0 <= a < order.len(),
        0 <= b < order.len(),
        discovery::entry_index(entries[order[a] as int])->0 < discovery::entry_index(
            entries[order[b] as int],
        )->0,
    ensures
        a < b,
{
    let less = discovery::lower_index(entries);
    if b < a {
        assert(ordering::comes_first(less, order[b] as int, order[a] as int));
    }
}

/// A tool mix has one order.
pub proof fn law_mix_order_is_unique(
    rows: Seq<projects::ToolCost>,
    a: Seq<usize>,
    b: Seq<usize>,
)
    requires
        projects::is_mix_order(rows, a),
        projects::is_mix_order(rows, b),
    ensures
        a == b,
{
    projects::lemma_mix_less_is_key_order(rows);
    ordering::law_order_is_unique(a, b, projects::mix_less(rows));
}

/// The order in which the costs are listed makes no difference: two rows that change
/// places leave a mix as it is, where sums of one rank are shown alike.
pub proof fn law_a_mix_does_not_depend_on_the_listing(
    rows: Seq<projects::ToolCost>,
    i: int,
    j: int,
    a: Seq<usize>,
    b: Seq<usize>,
    n: int,
)
    requires
        0 <= i < rows.len() <= usize::MAX,
        0 <= j < rows.len(),
        forall|x: int, y: int|
            0 <= x < rows.len() && 0 <= y < rows.len() && #[trigger] rows[x].rank
                == #[trigger] rows[y].rank ==> rows[x].money@ == rows[y].money@,
        projects::is_mix_order(rows, a),
        projects::is_mix_order(swapped(rows, i, j), b),
        0 <= n <= rows.len(),
    ensures
        projects::mix_text(rows, a, n) == projects::mix_text(swapped(rows, i, j), b, n),
{
    let other = swapped(rows, i, j);
    let less = projects::mix_less(rows);
    let c = Seq::new(b.len(), |k: int| partner(b[k] as int, i, j) as usize);
    projects::lemma_mix_less_is_key_order(rows);
    projects::lemma_mix_less_is_key_order(other);
    assert forall|p: usize| #[trigger] c.contains(p) <==> p < rows.len() by {
        let q = partner(p as int, i, j) as usize;
        if p < rows.len() {
            assert(b.contains(q));
            let k = choose|k: int| 0 <= k < b.len() && b[k] == q;
            assert(c[k] == p);
        }
        if c.contains(p) {
            let k = choose|k: int| 0 <= k < c.len() && c[k] == p;
            assert(b.contains(b[k]));
        }
    }
    assert forall|x: int, y: int| 0 <= x < y < c.len() implies #[trigger] c[x] != #[trigger] c[y]
        && !less(c[y] as int, c[x] as int) by {
        assert(b.contains(b[x]) && b.contains(b[y]));
        assert(ordering::comes_first(projects::mix_less(other), b[x] as int, b[y] as int));
        assert(other[b[x] as int] == rows[c[x] as int]);
        assert(other[b[y] as int] == rows[c[y] as int]);
        assert(projects::mix_less(other)(b[y] as int, b[x] as int) == less(
            c[y] as int,
            c[x] as int,
        ));
        assert(projects::mix_less(other)(b[x] as int, b[x] as int) == less(
            c[x] as int,
            c[x] as int,
        ));
    }
    assert forall|x: int, y: int| 0 <= x < y < a.len() implies #[trigger] a[x] != #[trigger] a[y]
        && !less(a[y] as int, a[x] as int) by {
        assert(ordering::comes_first(less, a[x] as int, a[y] as int));
    }
    ordering::lemma_same_keys(a, c, less);
    lemma_all_listed(a, rows.len());
    lemma_all_listed(c, rows.len());
    assert forall|k: int| 0 <= k < rows.len() implies projects::mix_cell(
        #[trigger] rows[a[k] as int],
    ) == projects::mix_cell(other[b[k] as int]) by {
        assert(a.contains(a[k]) && b.contains(b[k]) && c.contains(c[k]));
        let (x, y) = (rows[a[k] as int], rows[c[k] as int]);
        assert(other[b[k] as int] == y);
        assert(!less(a[k] as int, c[k] as int) && !less(c[k] as int, a[k] as int));
        assert(x.rank == y.rank);
        projects::lemma_text_less_total(call::short_label(x.tool@), call::short_label(y.tool@));
    }
    lemma_same_cells(rows, a, other, b, n);
}

/// Where position `p` goes when `i` and `j` change places.
pub open spec fn partner(p: int, i: int, j: int) -> int {
    if p == i {
        j
    } else if p == j {
        i
    } else {
        p
    }
}

/// `rows` with two of them in each other's place.
pub open spec fn swapped(rows: Seq<projects::ToolCost>, i: int, j: int) -> Seq<projects::ToolCost> {
    Seq::new(rows.len(), |p: int| rows[partner(p, i, j)])
}

pub proof fn lemma_same_cells(
    rows: Seq<projects::ToolCost>,
    a: Seq<usize>,
    other: Seq<projects::ToolCost>,
    b: Seq<usize>,
    n: int,
)
    requires
        forall|k: int|
            0 <= k < n ==> projects::mix_cell(#[trigger] rows[a[k] as int]) == projects::mix_cell(
                other[b[k] as int],
            ),
    ensures
        projects::mix_text(rows, a, n) == projects::mix_text(other, b, n),
    decreases n,
{
    if n > 0 {
        assert(projects::mix_cell(rows[a[n - 1] as int]) == projects::mix_cell(
            other[b[n - 1] as int],
        ));
        lemma_same_cells(rows, a, other, b, n - 1);
    }
}

/// A list of all the positions below `n`, each once, is `n` long.
pub proof fn lemma_all_listed(a: Seq<usize>, n: nat)
    requires
        n <= usize::MAX,
        forall|p: usize| #[trigger] a.contains(p) <==> p < n,
        forall|x: int, y: int| 0 <= x < y < a.len() ==> #[trigger] a[x] != #[trigger] a[y],
    ensures
        a.len() == n,
{
    let all = Seq::new(n, |p: int| p as usize);
    assert forall|p: usize| all.contains(p) <==> p < n by {
        if p < n {
            assert(all[p as int] == p);
        }
    }
    a.unique_seq_to_set();
    all.unique_seq_to_set();
    assert(a.to_set() == all.to_set()) by {
        assert forall|p: usize| a.to_set().contains(p) <==> all.to_set().contains(p) by {
            assert(a.contains(p) <==> all.contains(p));
        }
    }
}

/// A normal path has a name, no backslash, and no slash at its end.
pub proof fn law_normal_form(raw: Seq<char>)
    ensures
        ({
            let path = projects::normalized(raw);
            &&& path.len() > 0
            &&& path.last() != '/'
            &&& forall|i: int| 0 <= i < path.len() ==> path[i] != '\\'
        }),
{
    reveal_strlit("(unknown)");
    let s = projects::with_slashes(text::trimmed(raw));
    lemma_trim_end(s, projects::slash());
}

pub proof fn lemma_trim_end(s: Seq<char>, p: spec_fn(char) -> bool)
    ensures
        ({
            let t = text::trim_end_by(s, p);
            &&& t.len() <= s.len()
            &&& t == s.take(t.len() as int)
            &&& t.len() > 0 ==> !p(t.last())
            &&& forall|i: int| t.len() <= i < s.len() ==> p(#[trigger] s[i])
        }),
    decreases s.len(),
{
    if s.len() > 0 && p(s.last()) {
        lemma_trim_end(s.drop_last(), p);
        let t = text::trim_end_by(s, p);
        assert(s.drop_last().take(t.len() as int) == s.take(t.len() as int));
        assert forall|i: int| t.len() <= i < s.len() implies p(#[trigger] s[i]) by {
            if i < s.len() - 1 {
                assert(s.drop_last()[i] == s[i]);
            }
        }
    } else {
        assert(s.take(s.len() as int) == s);
    }
}

/// The nearest root of a repository wins: a project is the first directory on the way
/// up that is one.
pub proof fn law_nearest_root_wins(source: projects::ProjectSource, n: int)
    requires
        source.absolute,
        0 <= n < source.ancestors@.len(),
        projects::is_root(source.ancestors@[n]),
        forall|i: int|
            0 <= i < n ==> !projects::is_root(#[trigger] source.ancestors@[i]),
    ensures
        projects::identity_of(source) == projects::project_string(source.ancestors@[n].path@),
{
    lemma_first_root(source.ancestors@, n);
}

pub proof fn lemma_first_root(ancestors: Seq<projects::Ancestor>, n: int)
    requires
        0 <= n < ancestors.len(),
        projects::is_root(ancestors[n]),
        forall|i: int| 0 <= i < n ==> !projects::is_root(#[trigger] ancestors[i]),
    ensures
        projects::nearest_root(ancestors) == Some(
            projects::project_string(ancestors[n].path@),
        ),
    decreases n,
{
    if n > 0 {
        assert forall|i: int| 0 <= i < n - 1 implies !projects::is_root(
            #[trigger] ancestors.drop_first()[i],
        ) by {
            assert(ancestors.drop_first()[i] == ancestors[i + 1]);
        }
        lemma_first_root(ancestors.drop_first(), n - 1);
    }
}

/// Without a root of a repository above it a project is its own path.
pub proof fn law_no_root_no_change(source: projects::ProjectSource)
    requires
        forall|i: int|
            0 <= i < source.ancestors@.len() ==> !projects::is_root(#[trigger] source.ancestors@[i]),
    ensures
        projects::identity_of(source) == projects::normalized(source.raw@),
{
    lemma_no_root(source.ancestors@);
}

pub proof fn lemma_no_root(ancestors: Seq<projects::Ancestor>)
    requires
        forall|i: int| 0 <= i < ancestors.len() ==> !projects::is_root(#[trigger] ancestors[i]),
    ensures
        projects::nearest_root(ancestors) is None,
    decreases ancestors.len(),
{
    if ancestors.len() > 0 {
        assert forall|i: int| 0 <= i < ancestors.len() - 1 implies !projects::is_root(
            #[trigger] ancestors.drop_first()[i],
        ) by {
            assert(ancestors.drop_first()[i] == ancestors[i + 1]);
        }
        lemma_no_root(ancestors.drop_first());
    }
}

/// Every part has a name and no slash in it.
pub open spec fn are_names(parts: Seq<Seq<char>>) -> bool {
    forall|i: int| 0 <= i < parts.len() ==> is_name(#[trigger] parts[i])
}

pub open spec fn is_name(part: Seq<char>) -> bool {
    part.len() > 0 && forall|j: int| 0 <= j < part.len() ==> part[j] != '/'
}

pub proof fn lemma_pieces_are_names(s: Seq<char>)
    ensures
        are_names(projects::pieces(s)),
    decreases s.len(),
{
    let n = projects::first_slash(s);
    sequence::lemma_first_at_bounds(s, '/');
    if s.len() > 0 {
        if n <= 0 {
            lemma_pieces_are_names(s.drop_first());
        } else if n < s.len() {
            lemma_pieces_are_names(s.skip(n + 1));
            let rest = projects::pieces(s.skip(n + 1));
            assert forall|i: int| 0 <= i < projects::pieces(s).len() implies is_name(
                #[trigger] projects::pieces(s)[i],
            ) by {
                if i > 0 {
                    assert(projects::pieces(s)[i] == rest[i - 1]);
                }
            }
        }
    }
}

pub proof fn lemma_parts_are_names(identity: Seq<char>)
    ensures
        are_names(projects::parts(identity)),
{
    reveal_strlit("(unknown)");
    lemma_pieces_are_names(identity);
}

/// Names that are joined can be told apart again.
pub proof fn lemma_joined_injective(a: Seq<Seq<char>>, b: Seq<Seq<char>>)
    requires
        are_names(a),
        are_names(b),
        projects::joined(a) == projects::joined(b),
    ensures
        a == b,
    decreases a.len(),
{
    let (x, y) = (projects::joined(a), projects::joined(b));
    let n = x.len() as int;
    if a.len() == 0 || b.len() == 0 {
        lemma_joined_len(a);
        lemma_joined_len(b);
        assert(a == b);
    } else if a.len() == 1 && b.len() == 1 {
        assert(a == b);
    } else if a.len() == 1 {
        let k = b.last().len() as int;
        assert(y[n - 1 - k] == '/');
        lemma_joined_len(b.drop_last());
        assert(is_name(a[0]));
    } else if b.len() == 1 {
        let k = a.last().len() as int;
        assert(x[n - 1 - k] == '/');
        lemma_joined_len(a.drop_last());
        assert(is_name(b[0]));
    } else {
        let (p, q) = (a.last(), b.last());
        assert(is_name(a[a.len() - 1]) && is_name(b[b.len() - 1]));
        assert(x[n - 1 - p.len()] == '/');
        assert(y[n - 1 - q.len()] == '/');
        if p.len() < q.len() {
            assert(y[n - 1 - p.len()] == q[q.len() - 1 - p.len()]);
        } else if q.len() < p.len() {
            assert(x[n - 1 - q.len()] == p[p.len() - 1 - q.len()]);
        }
        let (u, v) = (projects::joined(a.drop_last()), projects::joined(b.drop_last()));
        assert(u == x.take(n - 1 - p.len()));
        assert(v == y.take(n - 1 - q.len()));
        assert(p == x.skip(n - p.len()));
        assert(q == y.skip(n - q.len()));
        assert(are_names(a.drop_last()) && are_names(b.drop_last()));
        lemma_joined_injective(a.drop_last(), b.drop_last());
        assert(a == a.drop_last().push(p));
        assert(b == b.drop_last().push(q));
    }
}

pub proof fn lemma_joined_len(a: Seq<Seq<char>>)
    requires
        are_names(a),
    ensures
        projects::joined(a).len() == 0 <==> a.len() == 0,
{
    if a.len() == 1 {
        assert(is_name(a[0]));
    }
}

/// The label of a project is the shortest end of its path that no other project has;
/// where every end is shared it is the whole path.
pub proof fn law_label_is_shortest(identity: Seq<char>, identities: Set<Seq<char>>)
    requires
        projects::parts(identity).len() > 0,
    ensures
        ({
            let n = projects::label_len(identity, identities, 1);
            &&& 1 <= n <= projects::parts(identity).len()
            &&& n < projects::parts(identity).len() ==> !projects::conflicts(
                identity,
                identities,
                n,
            )
            &&& forall|k: int| 1 <= k < n ==> #[trigger] projects::conflicts(identity, identities, k)
        }),
{
    lemma_label_len(identity, identities, 1);
}

pub proof fn lemma_label_len(identity: Seq<char>, identities: Set<Seq<char>>, from: int)
    requires
        1 <= from <= projects::parts(identity).len(),
    ensures
        ({
            let n = projects::label_len(identity, identities, from);
            &&& from <= n <= projects::parts(identity).len()
            &&& n < projects::parts(identity).len() ==> !projects::conflicts(
                identity,
                identities,
                n,
            )
            &&& forall|k: int|
                from <= k < n ==> #[trigger] projects::conflicts(identity, identities, k)
        }),
    decreases projects::parts(identity).len() - from,
{
    if from < projects::parts(identity).len() && projects::conflicts(identity, identities, from) {
        lemma_label_len(identity, identities, from + 1);
    }
}

/// Labels tell projects apart: two projects whose paths have different parts have
/// different labels.
pub proof fn law_labels_tell_projects_apart(
    a: Seq<char>,
    b: Seq<char>,
    identities: Set<Seq<char>>,
)
    requires
        identities.contains(a),
        identities.contains(b),
        projects::parts(a) != projects::parts(b),
        projects::parts(a).len() > 0,
        projects::parts(b).len() > 0,
    ensures
        projects::label_of(a, identities) != projects::label_of(b, identities),
{
    let (p, q) = (projects::parts(a), projects::parts(b));
    let m = projects::label_len(a, identities, 1);
    let n = projects::label_len(b, identities, 1);
    law_label_is_shortest(a, identities);
    law_label_is_shortest(b, identities);
    if projects::label_of(a, identities) == projects::label_of(b, identities) {
        lemma_parts_are_names(a);
        lemma_parts_are_names(b);
        let (x, y) = (p.skip(p.len() - m), q.skip(q.len() - n));
        assert(p.skip(0) == p && q.skip(0) == q);
        assert(are_names(x) && are_names(y));
        lemma_joined_injective(x, y);
        assert(m == n);
        assert(projects::conflicts(a, identities, m));
        assert(projects::conflicts(b, identities, n));
        assert(m == p.len() && n == q.len());
        assert(p == q);
    }
}

} // verus!
