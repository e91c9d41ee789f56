//! Finding the usage logs among the files of a directory.
//!
//! The daemon rotates to a new file rather than rewriting one, and numbers the files.
//! The number records emission order; a modification time does not, since a copied or
//! restored tree has whatever times the copy gave it.

use crate::config;
use crate::digits;
use crate::ordering;
use crate::text::chars_of;
use vstd::prelude::*;

verus! {

/// The number that `s` is, where it is one that fits 32 bits: a plus sign if there is
/// one, then digits and nothing else.
pub open spec fn u32_of(s: Seq<char>) -> Option<u32> {
    let d = if s.len() > 0 && s[0] == '+' {
        s.drop_first()
    } else {
        s
    };
    let value = digits::digits_value(digits::digits_of(d));
    if d.len() > 0 && digits::digit_run(d) == d.len() && value <= u32::MAX {
        Some(value as u32)
    } else {
        None
    }
}

/// The end of a log's name: a dot and the extension.
pub open spec fn log_suffix() -> Seq<char> {
    "."@ + config::FILE_EXT@
}

/// The number of the log that is called `name`: what stands between the prefix and the
/// extension, where the name has both and that is a number.
pub open spec fn log_index(name: Seq<char>) -> Option<u32> {
    let before = config::FILE_PREFIX@.len() as int;
    let after = name.len() - log_suffix().len();
    if before <= after && name.take(before) == config::FILE_PREFIX@ && name.skip(after)
        == log_suffix() {
        u32_of(name.subrange(before, after))
    } else {
        None
    }
}

/// More digits make no smaller number.
proof fn lemma_value_grows(d: Seq<u8>, n: int)
    requires
        0 <= n <= d.len(),
    ensures
        digits::digits_value(d.take(n)) <= digits::digits_value(d),
    decreases d.len() - n,
{
    if n < d.len() {
        lemma_value_grows(d, n + 1);
        assert(d.take(n + 1).drop_last() == d.take(n));
    } else {
        assert(d.take(n) == d);
    }
}

/// The number that `chars` is.
fn parse_u32(chars: &[char]) -> (r: Option<u32>)
    ensures
        r == u32_of(chars@),
{
    let len: usize = chars.len();
    let mut from: usize = 0;
    if len > 0 && chars[0] == '+' {
        from = 1;
    }
    let ghost tail = chars@.skip(from as int);
    assert(from == 0 ==> tail == chars@);
    assert(from == 1 ==> tail == chars@.drop_first());
    let end = digits::digits_end(chars, from);
    if from == len || end != len {
        return None;
    }
    let ghost d = digits::digits_of(tail);
    let mut value: u64 = 0;
    let mut i: usize = from;
    assert(d.take(0).len() == 0);
    while i < len
        invariant
            from <= i <= len == chars@.len(),
            tail == chars@.skip(from as int),
            d == digits::digits_of(tail),
            value == digits::digits_value(d.take(i - from)),
            value <= u32::MAX,
            forall|j: int| from <= j < len ==> digits::is_digit(#[trigger] chars@[j]),
            digits::digits_value(d) > u32::MAX ==> u32_of(chars@) is None,
        decreases len - i,
    {
        let c: char = chars[i];
        proof {
            assert(d.take(i - from + 1).drop_last() == d.take(i - from));
            assert(d.take(i - from + 1).last() == d[i - from]);
            assert(tail[i - from] == c);
            lemma_value_grows(d, i - from + 1);
        }
        value = value * 10 + (c as u32 - 48) as u64;
        if value > u32::MAX as u64 {
            return None;
        }
        i += 1;
    }
    assert(d.take(len - from) == d);
    Some(value as u32)
}

/// Whether `chars`, from `at` on, goes on with `word`.
fn has_at(chars: &[char], at: usize, word: &str) -> (r: bool)
    requires
        at <= chars@.len(),
    ensures
        r == (at + word@.len() <= chars@.len() && chars@.subrange(at as int, at + word@.len())
            == word@),
{
    let w = chars_of(word);
    if w.len() > chars.len() - at {
        return false;
    }
    let mut i: usize = 0;
    while i < w.len()
        invariant
            i <= w@.len(),
            w@ == word@,
            at + w@.len() <= chars@.len() <= usize::MAX,
            forall|j: int| 0 <= j < i ==> chars@[at + j] == #[trigger] word@[j],
        decreases w@.len() - i,
    {
        if chars[at + i] != w[i] {
            assert(chars@.subrange(at as int, at + word@.len())[i as int] != word@[i as int]);
            return false;
        }
        i += 1;
    }
    assert(chars@.subrange(at as int, at + word@.len()) == word@);
    true
}

/// The number of the log that is called `name`; nothing where it is not a usage log.
pub fn file_index(name: &str) -> (index: Option<u32>)
    ensures
        index == log_index(name@),
{
    proof {
        reveal_strlit("usage-");
        reveal_strlit("jsonl");
        reveal_strlit(".");
        assert(config::FILE_PREFIX@.len() == 6);
        assert(log_suffix().len() == 6);
    }
    let chars = chars_of(name);
    let len: usize = chars.len();
    if len < 12 {
        return None;
    }
    let after: usize = len - 6;
    let all = chars.as_slice();
    proof {
        assert(name@.take(6) == name@.subrange(0, 6));
        assert(name@.skip(after as int) == name@.subrange(after as int, after + 1) + name@.subrange(
            after + 1,
            after + 6,
        ));
        assert(name@.skip(after as int).take(1) == name@.subrange(after as int, after + 1));
        assert(name@.skip(after as int).skip(1) == name@.subrange(after + 1, after + 6));
        assert(log_suffix().take(1) == "."@);
        assert(log_suffix().skip(1) == config::FILE_EXT@);
    }
    if !has_at(all, 0, config::FILE_PREFIX) || !has_at(all, after, ".") || !has_at(
        all,
        after + 1,
        config::FILE_EXT,
    ) {
        return None;
    }
    let number = vstd::slice::slice_subrange(all, 6, after);
    parse_u32(number)
}

/// What a listing says of one entry of a directory.
pub struct DirEntry<P> {
    pub path: P,
    /// What the entry is called, where that is Unicode.
    pub name: Option<String>,
    pub is_file: bool,
}

/// One log to read, with the project and the tool its calls belong to.
#[derive(Clone, Debug, PartialEq)]
pub struct SessionSource<P> {
    pub path: P,
    pub project: &'static str,
    pub tool: &'static str,
}

/// The source that the log at `path` is.
pub open spec fn source_of<P>(path: P) -> SessionSource<P> {
    SessionSource { path, project: config::DISPLAY_NAME, tool: config::TOOL_ID }
}

/// The number of the log that `entry` is; nothing where it is not a usage log.
pub open spec fn entry_index<P>(entry: DirEntry<P>) -> Option<u32> {
    match entry.name {
        Some(name) => if entry.is_file {
            log_index(name@)
        } else {
            None
        },
        None => None,
    }
}

/// The order of the logs' numbers: position `i` has a lower one than position `j`.
pub open spec fn lower_index<P>(entries: Seq<DirEntry<P>>) -> spec_fn(int, int) -> bool {
    |i: int, j: int| entry_index(entries[i])->0 < entry_index(entries[j])->0
}

/// Whether `order` lists the positions of the usage logs among `entries` in emission
/// order: every log is there, nothing else is, and they stand by their numbers, two of
/// one number as they were listed.
pub open spec fn is_emission_order<P>(entries: Seq<DirEntry<P>>, order: Seq<usize>) -> bool {
    &&& forall|p: usize| #[trigger]
        order.contains(p) <==> p < entries.len() && entry_index(entries[p as int]) is Some
    &&& ordering::in_order(order, lower_index(entries))
}

/// The sources at the positions that `order` lists.
pub open spec fn sources_at<P>(entries: Seq<DirEntry<P>>, order: Seq<usize>) -> Seq<
    SessionSource<P>,
> {
    Seq::new(order.len(), |k: int| source_of(entries[order[k] as int].path))
}

/// The number of the log that `entry` is.
fn index_of_entry<P>(entry: &DirEntry<P>) -> (index: Option<u32>)
    ensures
        index == entry_index(*entry),
{
    match &entry.name {
        Some(name) => if entry.is_file {
            file_index(name.as_str())
        } else {
            None
        },
        None => None,
    }
}

/// The positions of the usage logs among `entries`, in emission order.
fn emission_order<P>(entries: &Vec<DirEntry<P>>) -> (order: Vec<usize>)
    ensures
        is_emission_order(entries@, order@),
{
    let ghost less = lower_index(entries@);
    let mut indices: Vec<Option<u32>> = Vec::new();
    let mut i: usize = 0;
    let n: usize = entries.len();
    while i < n
        invariant
            i <= n == entries@.len(),
            indices@.len() == i,
            forall|j: int| 0 <= j < i ==> #[trigger] indices@[j] == entry_index(entries@[j]),
        decreases n - i,
    {
        indices.push(index_of_entry(&entries[i]));
        i += 1;
    }
    let keys: &Vec<Option<u32>> = &indices;
    let is_less = |a: usize, b: usize| -> (r: bool)
        requires
            a < keys@.len(),
            b < keys@.len(),
            keys@[a as int] is Some,
            keys@[b as int] is Some,
        ensures
            r == (keys@[a as int]->0 < keys@[b as int]->0),
        { keys[a].unwrap() < keys[b].unwrap() };
    let ghost valid = |p: int| 0 <= p < n && entry_index(entries@[p]) is Some;
    let mut order: Vec<usize> = Vec::new();
    let mut k: usize = 0;
    while k < n
        invariant
            k <= n == entries@.len(),
            less == lower_index(entries@),
            keys@.len() == n,
            forall|j: int| 0 <= j < n ==> #[trigger] keys@[j] == entry_index(entries@[j]),
            valid == (|p: int| 0 <= p < n && entry_index(entries@[p]) is Some),
            forall|a: usize, b: usize|
                valid(a as int) && valid(b as int) ==> #[trigger] call_requires(is_less, (a, b)),
            forall|a: usize, b: usize, r: bool|
                valid(a as int) && valid(b as int) && #[trigger] call_ensures(is_less, (a, b), r)
                    ==> r == less(a as int, b as int),
            forall|p: usize| #[trigger] order@.contains(p) <==> p < k && valid(p as int),
            ordering::in_order(order@, less),
        decreases n - k,
    {
        if keys[k].is_some() {
            assert forall|a: int| 0 <= a < order@.len() implies #[trigger] order@[a] < k
                && valid(order@[a] as int) by {
                assert(order@.contains(order@[a]));
            }
            ordering::insert_position(&mut order, k, is_less, Ghost(less), Ghost(valid));
        }
        k += 1;
    }
    order
}

/// The logs to read, given the entries of the usage directory: one source for every
/// usage log, in emission order. Without that directory there is nothing to read.
pub fn discover<P>(listing: Option<Vec<DirEntry<P>>>) -> (sources: Vec<SessionSource<P>>)
    ensures
        match listing {
            Some(entries) => exists|order: Seq<usize>| #[trigger]
                is_emission_order(entries@, order) && sources@ == sources_at(entries@, order),
            None => sources@.len() == 0,
        },
{
    let entries = match listing {
        Some(entries) => entries,
        None => {
            return Vec::new();
        },
    };
    let ghost all = entries@;
    let order = emission_order(&entries);
    let mut paths: Vec<Option<P>> = Vec::new();
    for entry in it: entries
        invariant
            it.seq() == all,
            paths@.len() == it.index(),
            forall|i: int| 0 <= i < paths@.len() ==> #[trigger] paths@[i] == Some(all[i].path),
    {
        paths.push(Some(entry.path));
    }
    let mut sources: Vec<SessionSource<P>> = Vec::new();
    let mut k: usize = 0;
    assert forall|b: int| 0 <= b < order@.len() implies paths@[#[trigger] order@[b] as int] == Some(
        all[order@[b] as int].path,
    ) by {
        assert(order@.contains(order@[b]));
    }
    while k < order.len()
        invariant
            k <= order@.len(),
            is_emission_order(all, order@),
            paths@.len() == all.len(),
            forall|b: int|
                k <= b < order@.len() ==> paths@[#[trigger] order@[b] as int] == Some(
                    all[order@[b] as int].path,
                ),
            sources@ == sources_at(all, order@.take(k as int)),
        decreases order@.len() - k,
    {
        let p: usize = order[k];
        assert(order@.contains(p));
        let path = paths[p].take();
        assert forall|b: int| k < b < order@.len() implies paths@[#[trigger] order@[b] as int]
            == Some(all[order@[b] as int].path) by {
            assert(order@.contains(order@[b]));
            assert(ordering::comes_first(
                lower_index(all),
                order@[k as int] as int,
                order@[b] as int,
            ));
        }
        if let Some(path) = path {
            sources.push(
                SessionSource { path, project: config::DISPLAY_NAME, tool: config::TOOL_ID },
            );
            assert(sources@ == sources_at(all, order@.take(k + 1)));
        }
        k += 1;
    }
    assert(order@.take(k as int) == order@);
    sources
}

} // verus!
