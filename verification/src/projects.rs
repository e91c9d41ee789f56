//! Which project a call belongs to, and how the project is called in a report.

use crate::call;
use crate::call::tool_short_label;
use crate::ordering;
use crate::sequence;
use crate::text;
use crate::text::{chars_of, same_text, string_of, trim_chars, trim_end_len};
use vstd::prelude::*;

pub use vstd::hash_map::StringHashMap;

verus! {

/// What the file system says of one directory on the way up from a project.
pub struct Ancestor {
    pub path: String,
    /// Its `.git` is a file.
    pub dot_git_file: bool,
    /// Its `.git` is a directory.
    pub dot_git_dir: bool,
    /// Its `.git` holds a `HEAD`.
    pub head: bool,
}

/// A project as a tool's log names it, with what the file system says of its path in
/// normal form.
pub struct ProjectSource {
    pub raw: String,
    /// The path is absolute.
    pub absolute: bool,
    /// The path itself and the directories on the way up from it, the nearest one first.
    pub ancestors: Vec<Ancestor>,
}

/// `s` with slashes in place of backslashes.
pub open spec fn with_slashes(s: Seq<char>) -> Seq<char> {
    Seq::new(
        s.len(),
        |i: int|
            if s[i] == '\\' {
                '/'
            } else {
                s[i]
            },
    )
}

/// The predicate "is a slash".
pub open spec fn slash() -> spec_fn(char) -> bool {
    |c: char| c == '/'
}

fn is_slash(c: char) -> (r: bool)
    ensures
        r == slash()(c),
{
    c == '/'
}

/// A project path in its normal form: no white space around it, slashes in place of
/// backslashes, and none at the end. What is left without a name is unknown.
pub open spec fn normalized(raw: Seq<char>) -> Seq<char> {
    let s = text::trim_end_by(with_slashes(text::trimmed(raw)), slash());
    if s.len() == 0 {
        "(unknown)"@
    } else {
        s
    }
}

/// `chars` with slashes in place of backslashes.
fn slashed(chars: &[char]) -> (out: Vec<char>)
    ensures
        out@ == with_slashes(chars@),
{
    let mut out: Vec<char> = Vec::new();
    let mut i: usize = 0;
    while i < chars.len()
        invariant
            i <= chars@.len(),
            out@ == with_slashes(chars@.take(i as int)),
        decreases chars@.len() - i,
    {
        let c: char = chars[i];
        out.push(
            if c == '\\' {
                '/'
            } else {
                c
            },
        );
        assert(out@ == with_slashes(chars@.take(i + 1)));
        i += 1;
    }
    assert(chars@.take(i as int) == chars@);
    out
}

/// The normal form of a project path.
pub fn normalized_project_path(raw: &str) -> (path: String)
    ensures
        path@ == normalized(raw@),
{
    let chars = chars_of(raw);
    let path = slashed(trim_chars(chars.as_slice()));
    let len = trim_end_len(path.as_slice(), is_slash, Ghost(slash()));
    if len == 0 {
        return "(unknown)".to_owned();
    }
    let kept = vstd::slice::slice_subrange(path.as_slice(), 0, len);
    assert(kept@ == path@.take(len as int));
    string_of(kept)
}

/// How a project is shown as its log names it.
pub fn raw_project_display(raw: &str) -> (path: String)
    ensures
        path@ == normalized(raw@),
{
    normalized_project_path(raw)
}

/// The directory `path` as a project: with slashes, and none at the end of it unless
/// it has nothing else.
pub open spec fn project_string(path: Seq<char>) -> Seq<char> {
    let s = text::trim_end_by(with_slashes(path), slash());
    if s.len() == 0 {
        with_slashes(path)
    } else {
        s
    }
}

/// The directory `path` as a project.
pub fn path_to_project_string(path: &str) -> (project: String)
    ensures
        project@ == project_string(path@),
{
    let chars = chars_of(path);
    let whole = slashed(chars.as_slice());
    let len = trim_end_len(whole.as_slice(), is_slash, Ghost(slash()));
    if len == 0 {
        return string_of(whole.as_slice());
    }
    let kept = vstd::slice::slice_subrange(whole.as_slice(), 0, len);
    assert(kept@ == whole@.take(len as int));
    string_of(kept)
}

/// Whether a directory is the root of a repository. An empty `.git` directory does not
/// make it one; a `.git` file, which a linked worktree or a submodule has, does.
pub open spec fn is_root(a: Ancestor) -> bool {
    a.dot_git_file || (a.dot_git_dir && a.head)
}

/// Whether a directory is the root of a repository.
pub fn is_git_root(a: &Ancestor) -> (r: bool)
    ensures
        r == is_root(*a),
{
    a.dot_git_file || (a.dot_git_dir && a.head)
}

/// The nearest of `ancestors` that is the root of a repository.
pub open spec fn nearest_root(ancestors: Seq<Ancestor>) -> Option<Seq<char>>
    decreases ancestors.len(),
{
    if ancestors.len() == 0 {
        None
    } else if is_root(ancestors[0]) {
        Some(project_string(ancestors[0].path@))
    } else {
        nearest_root(ancestors.drop_first())
    }
}

/// The root of the repository that a project lies in. A path that is not absolute says
/// nothing of where that is.
pub fn nearest_git_root(source: &ProjectSource) -> (root: Option<String>)
    ensures
        match root {
            Some(r) => source.absolute && nearest_root(source.ancestors@) == Some(r@),
            None => !source.absolute || nearest_root(source.ancestors@) is None,
        },
{
    if !source.absolute {
        return None;
    }
    let ancestors = &source.ancestors;
    let mut i: usize = 0;
    assert(ancestors@.skip(0) == ancestors@);
    while i < ancestors.len()
        invariant
            i <= ancestors@.len(),
            source.absolute,
            *ancestors == source.ancestors,
            nearest_root(ancestors@.skip(i as int)) == nearest_root(ancestors@),
        decreases ancestors@.len() - i,
    {
        assert(ancestors@.skip(i as int)[0] == ancestors@[i as int]);
        assert(ancestors@.skip(i as int).drop_first() == ancestors@.skip(i + 1));
        if is_git_root(&ancestors[i]) {
            return Some(path_to_project_string(ancestors[i].path.as_str()));
        }
        i += 1;
    }
    None
}

/// The identity of a project: the nearest root of a repository, or the project's own
/// path where it lies in none.
pub open spec fn identity_of(source: ProjectSource) -> Seq<char> {
    match nearest_root(source.ancestors@) {
        Some(root) if source.absolute => root,
        _ => normalized(source.raw@),
    }
}

/// The identity of a project.
pub fn project_identity(source: &ProjectSource) -> (identity: String)
    ensures
        identity@ == identity_of(*source),
{
    match nearest_git_root(source) {
        Some(root) => root,
        None => normalized_project_path(source.raw.as_str()),
    }
}

/// The position of the first slash of `s`, or its length.
pub open spec fn first_slash(s: Seq<char>) -> int {
    sequence::first_at(s, '/')
}

/// What stands between the slashes of `s`, without what is empty.
pub open spec fn pieces(s: Seq<char>) -> Seq<Seq<char>>
    decreases s.len(),
{
    let n = first_slash(s);
    if s.len() == 0 {
        Seq::empty()
    } else if n <= 0 {
        pieces(s.drop_first())
    } else if n < s.len() {
        seq![s.take(n)] + pieces(s.skip(n + 1))
    } else {
        seq![s]
    }
}

/// The parts of a project's identity: the names along its path. The unknown project
/// has one part.
pub open spec fn parts(identity: Seq<char>) -> Seq<Seq<char>> {
    if identity == "(unknown)"@ {
        seq![identity]
    } else {
        pieces(identity)
    }
}

/// The parts of a project's identity.
pub fn project_parts(identity: &str) -> (out: Vec<String>)
    ensures
        text::texts(out@) == parts(identity@),
{
    let mut out: Vec<String> = Vec::new();
    if same_text(identity, "(unknown)") {
        out.push(identity.to_owned());
        assert(text::texts(out@) == parts(identity@));
        return out;
    }
    let chars = chars_of(identity);
    let len: usize = chars.len();
    let mut start: usize = 0;
    let mut i: usize = 0;
    assert(chars@.skip(0) == identity@);
    assert(text::texts(out@) + pieces(identity@) == pieces(identity@));
    while i < len
        invariant
            start <= i <= len == chars@.len(),
            chars@ == identity@,
            text::texts(out@) + pieces(chars@.skip(start as int)) == pieces(identity@),
            forall|j: int| start <= j < i ==> chars@[j] != '/',
        decreases len - i,
    {
        if chars[i] == '/' {
            let ghost rest = chars@.skip(start as int);
            let ghost before = text::texts(out@);
            proof {
                sequence::lemma_first_at(rest, '/', i - start);
                assert(rest.skip(i - start + 1) == chars@.skip(i + 1));
                assert(rest.drop_first() == chars@.skip(start + 1));
            }
            if start < i {
                let part = string_of(vstd::slice::slice_subrange(chars.as_slice(), start, i));
                assert(part@ == rest.take(i - start));
                out.push(part);
                assert(text::texts(out@) == before.push(part@));
                assert(before.push(part@) + pieces(chars@.skip(i + 1)) == before + pieces(rest));
            }
            start = i + 1;
        }
        i += 1;
    }
    let ghost rest = chars@.skip(start as int);
    let ghost before = text::texts(out@);
    if start < len {
        proof {
            sequence::lemma_first_at(rest, '/', rest.len() as int);
        }
        let part = string_of(vstd::slice::slice_subrange(chars.as_slice(), start, len));
        assert(part@ == rest);
        out.push(part);
        assert(text::texts(out@) == before + seq![rest]);
    } else {
        assert(pieces(rest) == Seq::<Seq<char>>::empty());
        assert(before + Seq::<Seq<char>>::empty() == before);
    }
    out
}

/// `parts` with a slash between each two.
pub open spec fn joined(parts: Seq<Seq<char>>) -> Seq<char>
    decreases parts.len(),
{
    if parts.len() == 0 {
        Seq::empty()
    } else if parts.len() == 1 {
        parts[0]
    } else {
        joined(parts.drop_last()) + seq!['/'] + parts.last()
    }
}

/// The last `n` of `parts`, or all of them where there are fewer, joined.
pub open spec fn suffix(parts: Seq<Seq<char>>, n: int) -> Seq<char> {
    joined(
        parts.skip(
            if n < parts.len() {
                parts.len() - n
            } else {
                0
            },
        ),
    )
}

/// The last `n` of `parts`, or all of them where there are fewer, joined.
pub fn project_suffix(parts: &Vec<String>, n: usize) -> (s: String)
    ensures
        s@ == suffix(text::texts(parts@), n as int),
{
    let len: usize = parts.len();
    let from: usize = if n < len {
        len - n
    } else {
        0
    };
    let ghost all = text::texts(parts@).skip(from as int);
    let mut s = String::new();
    let mut i: usize = from;
    while i < len
        invariant
            from <= i <= len == parts@.len(),
            all == text::texts(parts@).skip(from as int),
            s@ == joined(all.take(i - from)),
        decreases len - i,
    {
        let ghost before = s@;
        if i > from {
            s.push('/');
        }
        s.append(parts[i].as_str());
        proof {
            let k = i - from;
            assert(all.take(k + 1).drop_last() == all.take(k));
            assert(all.take(k + 1).last() == parts@[i as int]@);
            if k > 0 {
                assert(before.push('/') == before + seq!['/']);
            }
        }
        i += 1;
    }
    assert(all.take(len - from) == all);
    s
}

/// Whether another of `identities` has the same last `n` parts.
pub open spec fn conflicts(identity: Seq<char>, identities: Set<Seq<char>>, n: int) -> bool {
    exists|other: Seq<char>|
        {
            &&& #[trigger] identities.contains(other)
            &&& other != identity
            &&& parts(other).len() >= n
            &&& suffix(parts(other), n) == suffix(parts(identity), n)
        }
}

/// The least number of parts, from `n` on, that tell a project from the others; all of
/// them where none do.
pub open spec fn label_len(identity: Seq<char>, identities: Set<Seq<char>>, n: int) -> int
    decreases parts(identity).len() - n,
{
    if n >= parts(identity).len() || !conflicts(identity, identities, n) {
        n
    } else {
        label_len(identity, identities, n + 1)
    }
}

/// The label of a project among `identities`: the shortest end of its path that no
/// other has.
pub open spec fn label_of(identity: Seq<char>, identities: Set<Seq<char>>) -> Seq<char> {
    if parts(identity).len() == 0 {
        "(unknown)"@
    } else {
        suffix(parts(identity), label_len(identity, identities, 1))
    }
}

/// The identities in a list.
pub open spec fn identity_set(identities: Seq<String>) -> Set<Seq<char>> {
    text::texts(identities).to_set()
}

/// Whether another of `identities` has the `n` last parts that make up `candidate`.
fn has_conflict(identity: &str, identities: &Vec<String>, n: usize, candidate: &str) -> (r: bool)
    requires
        candidate@ == suffix(parts(identity@), n as int),
    ensures
        r == conflicts(identity@, identity_set(identities@), n as int),
{
    let ghost set = identity_set(identities@);
    let mut i: usize = 0;
    while i < identities.len()
        invariant
            i <= identities@.len(),
            set == identity_set(identities@),
            candidate@ == suffix(parts(identity@), n as int),
            forall|j: int|
                0 <= j < i ==> !{
                    let other = #[trigger] identities@[j]@;
                    &&& other != identity@
                    &&& parts(other).len() >= n
                    &&& suffix(parts(other), n as int) == candidate@
                },
        decreases identities@.len() - i,
    {
        let other = identities[i].as_str();
        if !same_text(other, identity) {
            let other_parts = project_parts(other);
            assert(text::texts(other_parts@).len() == other_parts@.len());
            if other_parts.len() >= n && same_text(
                project_suffix(&other_parts, n).as_str(),
                candidate,
            ) {
                proof {
                    let all = text::texts(identities@);
                    assert(all[i as int] == other@);
                    assert(all.contains(other@));
                    assert(set.contains(other@));
                }
                return true;
            }
        }
        i += 1;
    }
    proof {
        let all = text::texts(identities@);
        assert forall|other: Seq<char>| #[trigger] set.contains(other) implies !{
            &&& other != identity@
            &&& parts(other).len() >= n
            &&& suffix(parts(other), n as int) == suffix(parts(identity@), n as int)
        } by {
            assert(all.contains(other));
            let j = choose|j: int| 0 <= j < all.len() && all[j] == other;
            assert(identities@[j]@ == other);
        }
    }
    false
}

/// The shortest end of a project's path that no other of `identities` has.
pub fn shortest_unique_project_label(identity: &str, identities: &Vec<String>) -> (label: String)
    ensures
        label@ == label_of(identity@, identity_set(identities@)),
{
    let own = project_parts(identity);
    let ghost set = identity_set(identities@);
    assert(text::texts(own@).len() == own@.len());
    if own.len() == 0 {
        return "(unknown)".to_owned();
    }
    let mut n: usize = 1;
    loop
        invariant
            1 <= n <= own@.len(),
            text::texts(own@) == parts(identity@),
            parts(identity@).len() == own@.len(),
            set == identity_set(identities@),
            label_len(identity@, set, 1) == label_len(identity@, set, n as int),
        decreases own@.len() - n,
    {
        let candidate = project_suffix(&own, n);
        if n == own.len() || !has_conflict(identity, identities, n, candidate.as_str()) {
            return candidate;
        }
        n += 1;
    }
}

/// The identities of `sources`.
pub open spec fn identities_of(sources: Seq<ProjectSource>) -> Set<Seq<char>> {
    Seq::new(sources.len(), |i: int| identity_of(sources[i])).to_set()
}

proof fn lemma_push_to_set(s: Seq<Seq<char>>, x: Seq<char>)
    ensures
        s.push(x).to_set() == s.to_set().insert(x),
{
    let more = s.push(x);
    assert forall|y: Seq<char>| more.contains(y) <==> s.contains(y) || y == x by {
        if s.contains(y) {
            let i = choose|i: int| 0 <= i < s.len() && s[i] == y;
            assert(more[i] == y);
        }
        assert(more[s.len() as int] == x);
    }
    assert(more.to_set() == s.to_set().insert(x));
}

/// The label of every project among `projects`, by its identity.
pub fn project_label_lookup(projects: &Vec<ProjectSource>) -> (labels: StringHashMap<String>)
    ensures
        labels@.dom() == identities_of(projects@),
        forall|identity: Seq<char>| #[trigger]
            labels@.contains_key(identity) ==> labels@[identity]@ == label_of(
                identity,
                identities_of(projects@),
            ),
{
    let mut identities: Vec<String> = Vec::new();
    let ghost all = Seq::new(projects@.len(), |i: int| identity_of(projects@[i]));
    let mut i: usize = 0;
    while i < projects.len()
        invariant
            i <= projects@.len(),
            all == Seq::new(projects@.len(), |i: int| identity_of(projects@[i])),
            text::texts(identities@) == all.take(i as int),
        decreases projects@.len() - i,
    {
        let identity = project_identity(&projects[i]);
        let ghost before = text::texts(identities@);
        identities.push(identity);
        assert(text::texts(identities@) == before.push(identity@));
        assert(all.take(i + 1) == all.take(i as int).push(all[i as int]));
        i += 1;
    }
    assert(all.take(i as int) == all);
    let ghost set = identities_of(projects@);
    assert(identity_set(identities@) == set);
    let mut labels: StringHashMap<String> = StringHashMap::new();
    let mut k: usize = 0;
    assert(labels@.dom() == all.take(0).to_set());
    while k < identities.len()
        invariant
            k <= identities@.len(),
            text::texts(identities@) == all,
            identity_set(identities@) == set,
            labels@.dom() == all.take(k as int).to_set(),
            forall|identity: Seq<char>| #[trigger]
                labels@.contains_key(identity) ==> labels@[identity]@ == label_of(identity, set),
        decreases identities@.len() - k,
    {
        let identity = identities[k].as_str();
        let label = shortest_unique_project_label(identity, &identities);
        labels.insert(identity.to_owned(), label);
        proof {
            assert(all[k as int] == identity@);
            assert(all.take(k + 1) == all.take(k as int).push(identity@));
            lemma_push_to_set(all.take(k as int), identity@);
        }
        k += 1;
    }
    assert(all.take(k as int) == all);
    labels
}

/// The label of a project: the one that `labels` has for it, or its own name where it
/// has none.
pub fn project_label(labels: &StringHashMap<String>, identity: &str) -> (label: String)
    ensures
        label@ == if labels@.contains_key(identity@) {
            labels@[identity@]@
        } else {
            label_of(identity@, set![identity@])
        },
{
    match labels.get(identity) {
        Some(label) => label.clone(),
        None => {
            let mut only: Vec<String> = Vec::new();
            only.push(identity.to_owned());
            proof {
                let all = text::texts(only@);
                assert(all[0] == identity@);
                assert forall|s: Seq<char>| all.contains(s) <==> s == identity@ by {}
                assert(identity_set(only@) == set![identity@]);
            }
            shortest_unique_project_label(identity, &only)
        },
    }
}

/// What one tool cost: the sum as it is shown, and its rank among the sums, which is
/// higher the more it is.
pub struct ToolCost {
    pub tool: String,
    pub rank: u64,
    pub money: String,
}

/// Whether `a` comes before `b` in a dictionary of characters.
pub open spec fn text_less(a: Seq<char>, b: Seq<char>) -> bool
    decreases b.len(),
{
    if b.len() == 0 {
        false
    } else if a.len() == 0 {
        true
    } else if a[0] != b[0] {
        a[0] < b[0]
    } else {
        text_less(a.drop_first(), b.drop_first())
    }
}

pub proof fn lemma_text_less_transitive(a: Seq<char>, b: Seq<char>, c: Seq<char>)
    ensures
        text_less(a, b) && text_less(b, c) ==> text_less(a, c),
        text_less(a, c) ==> text_less(a, b) || text_less(b, c),
        !text_less(a, a),
    decreases a.len() + b.len() + c.len(),
{
    if a.len() > 0 && b.len() > 0 && c.len() > 0 {
        lemma_text_less_transitive(a.drop_first(), b.drop_first(), c.drop_first());
    } else if a.len() > 0 {
        lemma_text_less_transitive(a.drop_first(), Seq::empty(), Seq::empty());
    }
}

/// Of two different texts one comes first.
pub proof fn lemma_text_less_total(a: Seq<char>, b: Seq<char>)
    ensures
        text_less(a, b) || text_less(b, a) || a == b,
    decreases a.len(),
{
    if a.len() > 0 && b.len() > 0 && a[0] == b[0] {
        lemma_text_less_total(a.drop_first(), b.drop_first());
        assert(a == seq![a[0]] + a.drop_first());
        assert(b == seq![b[0]] + b.drop_first());
    } else if a.len() == 0 && b.len() == 0 {
        assert(a == b);
    }
}

/// Whether `a` comes before `b` in a dictionary of characters.
fn comes_before(a: &str, b: &str) -> (r: bool)
    ensures
        r == text_less(a@, b@),
{
    let x = chars_of(a);
    let y = chars_of(b);
    let mut i: usize = 0;
    assert(x@.skip(0) == a@ && y@.skip(0) == b@);
    while i < x.len() && i < y.len()
        invariant
            i <= x@.len(),
            i <= y@.len(),
            text_less(a@, b@) == text_less(x@.skip(i as int), y@.skip(i as int)),
        decreases x@.len() - i,
    {
        assert(x@.skip(i as int)[0] == x@[i as int] && y@.skip(i as int)[0] == y@[i as int]);
        assert(x@.skip(i as int).drop_first() == x@.skip(i + 1));
        assert(y@.skip(i as int).drop_first() == y@.skip(i + 1));
        if x[i] != y[i] {
            return x[i] < y[i];
        }
        i += 1;
    }
    i < y.len()
}

/// The order of the tools in a mix: the more costly first, equal ones by their short
/// names.
pub open spec fn mix_less(rows: Seq<ToolCost>) -> spec_fn(
    int,
    int,
) -> bool {
    |i: int, j: int|
        rows[i].rank > rows[j].rank || (rows[i].rank == rows[j].rank && text_less(
            call::short_label(rows[i].tool@),
            call::short_label(rows[j].tool@),
        ))
}

/// Whether `order` lists all the positions of `rows` in the order of a mix.
pub open spec fn is_mix_order(
    rows: Seq<ToolCost>,
    order: Seq<usize>,
) -> bool {
    &&& ordering::in_order(order, mix_less(rows))
    &&& forall|p: usize| order.contains(p) <==> p < rows.len()
}

/// One tool of a mix: its short name and what it cost.
pub open spec fn mix_cell(row: ToolCost) -> Seq<char> {
    call::short_label(row.tool@) + " "@ + row.money@
}

/// The first `n` tools of a mix, two spaces between each two.
pub open spec fn mix_text(
    rows: Seq<ToolCost>,
    order: Seq<usize>,
    n: int,
) -> Seq<char>
    decreases n,
{
    if n <= 0 {
        Seq::empty()
    } else if n == 1 {
        mix_cell(rows[order[0] as int])
    } else {
        mix_text(rows, order, n - 1) + "  "@ + mix_cell(rows[order[n - 1] as int])
    }
}

/// The order of a mix is an order by a key.
pub proof fn lemma_mix_less_is_key_order(rows: Seq<ToolCost>)
    ensures
        ordering::is_key_order(mix_less(rows)),
{
    let less = mix_less(rows);
    let name = |i: int| call::short_label(rows[i].tool@);
    assert forall|i: int| !#[trigger] less(i, i) by {
        lemma_text_less_transitive(name(i), name(i), name(i));
    }
    assert forall|i: int, j: int, k: int|
        #![trigger less(i, j), less(j, k)]
        less(i, j) && less(j, k) implies less(i, k) by {
        lemma_text_less_transitive(name(i), name(j), name(k));
    }
    assert forall|i: int, j: int, k: int|
        #![trigger less(i, k), less(i, j)]
        #![trigger less(i, k), less(j, k)]
        less(i, k) implies less(i, j) || less(j, k) by {
        lemma_text_less_transitive(name(i), name(j), name(k));
    }
}

/// The three most costly tools, with what each cost; a dash where there is none.
pub fn format_tool_mix(rows: &Vec<ToolCost>) -> (mix: String)
    ensures
        rows@.len() == 0 ==> mix@ == "-"@,
        rows@.len() > 0 ==> exists|order: Seq<usize>| #[trigger]
            is_mix_order(rows@, order) && mix@ == mix_text(
                rows@,
                order,
                if rows@.len() < 3 {
                    rows@.len() as int
                } else {
                    3
                },
            ),
{
    if rows.len() == 0 {
        return "-".to_owned();
    }
    let n: usize = rows.len();
    let ghost less = mix_less(rows@);
    let ghost valid = |p: int| 0 <= p < n;
    let is_less = |a: usize, b: usize| -> (r: bool)
        requires
            a < rows@.len(),
            b < rows@.len(),
        ensures
            r == mix_less(rows@)(a as int, b as int),
        {
            rows[a].rank > rows[b].rank || (rows[a].rank == rows[b].rank && comes_before(
                tool_short_label(rows[a].tool.as_str()).as_str(),
                tool_short_label(rows[b].tool.as_str()).as_str(),
            ))
        };
    proof {
        lemma_mix_less_is_key_order(rows@);
    }
    let mut order: Vec<usize> = Vec::new();
    let mut k: usize = 0;
    while k < n
        invariant
            k <= n == rows@.len(),
            less == mix_less(rows@),
            ordering::is_key_order(less),
            valid == (|p: int| 0 <= p < n),
            forall|a: usize, b: usize|
                valid(a as int) && valid(b as int) ==> #[trigger] call_requires(is_less, (a, b)),
            forall|a: usize, b: usize, r: bool|
                valid(a as int) && valid(b as int) && #[trigger] call_ensures(is_less, (a, b), r)
                    ==> r == less(a as int, b as int),
            forall|p: usize| #[trigger] order@.contains(p) <==> p < k,
            order@.len() == k,
            ordering::in_order(order@, less),
        decreases n - k,
    {
        assert forall|a: int| 0 <= a < order@.len() implies #[trigger] order@[a] < k && valid(
            order@[a] as int,
        ) by {
            assert(order@.contains(order@[a]));
        }
        ordering::insert_position(&mut order, k, is_less, Ghost(less), Ghost(valid));
        k += 1;
    }
    assert(is_mix_order(rows@, order@));
    let shown: usize = if n < 3 {
        n
    } else {
        3
    };
    let mut mix = String::new();
    let mut i: usize = 0;
    while i < shown
        invariant
            i <= shown <= n == rows@.len(),
            order@.len() == n,
            forall|p: usize| #[trigger] order@.contains(p) <==> p < n,
            mix@ == mix_text(rows@, order@, i as int),
        decreases shown - i,
    {
        let ghost before = mix@;
        assert(order@.contains(order@[i as int]));
        let row = &rows[order[i]];
        if i > 0 {
            mix.append("  ");
        }
        mix.append(tool_short_label(row.tool.as_str()).as_str());
        mix.append(" ");
        mix.append(row.money.as_str());
        proof {
            if i == 0 {
                assert(mix@ == mix_cell(*row));
            } else {
                assert(mix@ == before + "  "@ + mix_cell(*row));
            }
        }
        i += 1;
    }
    mix
}

} // verus!
