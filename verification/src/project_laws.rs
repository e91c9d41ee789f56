//! What paths, labels and mixes are, stated by how they are put together.

use crate::call;
use crate::laws;
use crate::ordering;
use crate::projects;
use crate::projects::{Ancestor, ProjectSource, ToolCost};
use crate::sequence;
use crate::text;
use crate::text_laws;
use vstd::prelude::*;

verus! {

/// Whether all of `s` are slashes or backslashes.
pub open spec fn all_slashes(s: Seq<char>) -> bool {
    forall|i: int| 0 <= i < s.len() ==> #[trigger] s[i] == '/' || s[i] == '\\'
}

/// Whether `path` is `core` with slashes in place of backslashes.
pub open spec fn is_slashed(path: Seq<char>, core: Seq<char>) -> bool {
    path.len() == core.len() && forall|i: int|
        0 <= i < path.len() ==> #[trigger] path[i] == if core[i] == '\\' {
            '/'
        } else {
            core[i]
        }
}

/// The normal form of a path: the white space around it goes, and then the slashes of
/// either kind at its end, and what is left has slashes in place of backslashes. Where
/// nothing is left the project is unknown.
pub proof fn law_the_normal_form_of_a_path(
    before: Seq<char>,
    core: Seq<char>,
    slashes: Seq<char>,
    after: Seq<char>,
)
    requires
        text_laws::all_white(before),
        text_laws::all_white(after),
        all_slashes(slashes),
        core.len() > 0 ==> core.last() != '/' && core.last() != '\\' && !text::is_white_space(
            core[0],
        ),
        core.len() > 0 && slashes.len() == 0 ==> !text::is_white_space(core.last()),
    ensures
        ({
            let path = projects::normalized(before + (core + slashes) + after);
            &&& core.len() == 0 ==> path == "(unknown)"@
            &&& core.len() > 0 ==> is_slashed(path, core)
        }),
{
    let s = core + slashes;
    if s.len() > 0 {
        if core.len() > 0 {
            assert(s[0] == core[0]);
        } else {
            assert(s[0] == slashes[0]);
        }
        if slashes.len() > 0 {
            assert(s.last() == slashes[slashes.len() - 1]);
        } else {
            assert(s.last() == core.last());
        }
    }
    text_laws::law_white_space_around_a_text_is_trimmed(before, s, after);
    lemma_slashes_go(core, slashes);
}

proof fn lemma_slashes_go(core: Seq<char>, slashes: Seq<char>)
    requires
        all_slashes(slashes),
        core.len() > 0 ==> core.last() != '/' && core.last() != '\\',
    ensures
        text::trim_end_by(projects::with_slashes(core + slashes), projects::slash())
            == projects::with_slashes(core),
{
    let (x, y) = (projects::with_slashes(core), projects::with_slashes(slashes));
    assert(projects::with_slashes(core + slashes) == x + y);
    if core.len() > 0 {
        assert(x.last() == core[core.len() - 1]);
    }
    text_laws::law_a_run_at_the_end_is_dropped(x, y, projects::slash());
}

/// A directory as a project: the slashes at its end go, of either kind, unless it has
/// nothing else, and the others are slashes.
pub proof fn law_a_directory_as_a_project(core: Seq<char>, slashes: Seq<char>)
    requires
        all_slashes(slashes),
        core.len() > 0 ==> core.last() != '/' && core.last() != '\\',
    ensures
        core.len() > 0 ==> is_slashed(projects::project_string(core + slashes), core),
        core.len() == 0 ==> is_slashed(projects::project_string(core + slashes), slashes),
{
    lemma_slashes_go(core, slashes);
    if core.len() == 0 {
        assert(core + slashes == slashes);
    }
}

/// A directory is the root of a repository exactly where its `.git` is a file, or a
/// directory with a `HEAD`; and a path that is not absolute is its own project.
pub proof fn law_which_directories_are_roots(a: Ancestor, source: ProjectSource)
    ensures
        projects::is_root(a) <==> a.dot_git_file || (a.dot_git_dir && a.head),
        !source.absolute ==> projects::identity_of(source) == projects::normalized(source.raw@),
{
}

/// The parts of a path are the names between its slashes, in order.
pub proof fn law_the_parts_of_a_path(a: Seq<char>, b: Seq<char>, name: Seq<char>)
    requires
        name.len() > 0,
        forall|i: int| 0 <= i < name.len() ==> name[i] != '/',
    ensures
        projects::parts(Seq::empty()).len() == 0,
        projects::parts(name) == seq![name],
        projects::parts(a + seq!['/'] + b) == projects::parts(a) + projects::parts(b),
{
    reveal_strlit("(unknown)");
    sequence::lemma_first_at(name, '/', name.len() as int);
    lemma_parts_are_pieces(name);
    lemma_parts_are_pieces(a + seq!['/'] + b);
    lemma_parts_are_pieces(a);
    lemma_parts_are_pieces(b);
    lemma_pieces_add_up(a, b);
}

proof fn lemma_parts_are_pieces(s: Seq<char>)
    ensures
        projects::parts(s) == projects::pieces(s),
{
    reveal_strlit("(unknown)");
    if s == "(unknown)"@ {
        sequence::lemma_first_at(s, '/', s.len() as int);
    }
}

proof fn lemma_pieces_add_up(a: Seq<char>, b: Seq<char>)
    ensures
        projects::pieces(a + seq!['/'] + b) == projects::pieces(a) + projects::pieces(b),
    decreases a.len(),
{
    let s = a + seq!['/'] + b;
    let (x, y) = (projects::pieces(a), projects::pieces(b));
    if a.len() == 0 {
        assert(s[0] == '/');
        assert(s.drop_first() == b);
        assert(x + y == y);
    } else {
        let n = projects::first_slash(a);
        sequence::lemma_first_at_bounds(a, '/');
        assert forall|i: int| 0 <= i < n implies s[i] != '/' by {
            assert(s[i] == a[i]);
        }
        assert(s[n] == '/');
        sequence::lemma_first_at(s, '/', n);
        if n == 0 {
            assert(s.drop_first() == a.drop_first() + seq!['/'] + b);
            lemma_pieces_add_up(a.drop_first(), b);
        } else if n < a.len() {
            let rest = a.skip(n + 1);
            assert(s.skip(n + 1) == rest + seq!['/'] + b);
            assert(s.take(n) == a.take(n));
            lemma_pieces_add_up(rest, b);
            let first = seq![a.take(n)];
            assert(first + (projects::pieces(rest) + y) == (first + projects::pieces(rest)) + y);
        } else {
            assert(s.skip(n + 1) == b);
            assert(s.take(n) == a);
        }
    }
}

/// Names are joined with a slash between each two, and an end of a path is its last parts,
/// joined, or all of them where there are fewer.
pub proof fn law_the_ends_of_a_path(a: Seq<Seq<char>>, b: Seq<Seq<char>>, name: Seq<char>, n: int)
    ensures
        projects::joined(Seq::empty()).len() == 0,
        projects::joined(seq![name]) == name,
        a.len() > 0 ==> projects::joined(a.push(name)) == projects::joined(a) + seq!['/'] + name,
        projects::suffix(a + b, b.len() as int) == projects::joined(b),
        n >= a.len() ==> projects::suffix(a, n) == projects::joined(a),
{
    assert(a.push(name).drop_last() == a);
    assert(a.skip(0) == a);
    if a.len() > 0 {
        assert((a + b).skip(a.len() as int) == b);
    } else {
        assert(a + b == b && b.skip(0) == b);
    }
}

/// Whether the path of `other` ends in the names `end`.
pub open spec fn ends_in(other: Seq<char>, end: Seq<Seq<char>>) -> bool {
    exists|front: Seq<Seq<char>>| #[trigger] (front + end) == projects::parts(other)
}

/// Whether another of `identities` ends in the names `end`.
pub open spec fn is_shared(
    identity: Seq<char>,
    identities: Set<Seq<char>>,
    end: Seq<Seq<char>>,
) -> bool {
    exists|other: Seq<char>| #[trigger]
        identities.contains(other) && other != identity && ends_in(other, end)
}

/// The label of a project is the shortest end of its path that no other project has, and
/// the whole path where every end is shared; a path without names is unknown.
pub proof fn law_the_label_is_the_shortest_end(
    identity: Seq<char>,
    identities: Set<Seq<char>>,
    n: int,
)
    requires
        ({
            let p = projects::parts(identity);
            &&& 1 <= n <= p.len()
            &&& n < p.len() ==> !is_shared(identity, identities, p.skip(p.len() - n))
            &&& forall|k: int|
                1 <= k < n ==> is_shared(identity, identities, #[trigger] p.skip(p.len() - k))
        }),
    ensures
        projects::label_of(identity, identities) == projects::joined(
            projects::parts(identity).skip(projects::parts(identity).len() - n),
        ),
{
    let p = projects::parts(identity);
    assert forall|k: int| 1 <= k <= p.len() implies (#[trigger] projects::conflicts(
        identity,
        identities,
        k,
    ) <==> is_shared(identity, identities, p.skip(p.len() - k))) by {
        lemma_shared_ends_conflict(identity, identities, k);
    }
    lemma_label_reaches(identity, identities, 1, n);
    if n == p.len() {
        assert(p.skip(0) == p);
    }
}

/// Where no other project has its last name, a project is labelled by that name alone; and
/// one without names is unknown.
pub proof fn law_a_last_name_of_its_own_is_the_label(
    identity: Seq<char>,
    identities: Set<Seq<char>>,
)
    requires
        forall|other: Seq<char>| #[trigger]
            identities.contains(other) && other != identity && projects::parts(other).len() > 0
                ==> projects::parts(other).last() != projects::parts(identity).last(),
    ensures
        projects::parts(identity).len() > 0 ==> projects::label_of(identity, identities)
            == projects::parts(identity).last(),
        projects::parts(identity).len() == 0 ==> projects::label_of(identity, identities)
            == "(unknown)"@,
{
    let p = projects::parts(identity);
    if p.len() > 0 {
        let end = p.skip(p.len() - 1);
        assert(end == seq![p.last()]);
        assert(!is_shared(identity, identities, end)) by {
            if is_shared(identity, identities, end) {
                let other = choose|other: Seq<char>| #[trigger]
                    identities.contains(other) && other != identity && ends_in(other, end);
                let front = choose|front: Seq<Seq<char>>| #[trigger]
                    (front + end) == projects::parts(other);
                assert((front + end).last() == p.last());
            }
        }
        law_the_label_is_the_shortest_end(identity, identities, 1);
    }
}

proof fn lemma_shared_ends_conflict(identity: Seq<char>, identities: Set<Seq<char>>, k: int)
    requires
        1 <= k <= projects::parts(identity).len(),
    ensures
        projects::conflicts(identity, identities, k) <==> is_shared(
            identity,
            identities,
            projects::parts(identity).skip(projects::parts(identity).len() - k),
        ),
{
    let p = projects::parts(identity);
    let end = p.skip(p.len() - k);
    assert(p.skip(0) == p);
    laws::lemma_parts_are_names(identity);
    if projects::conflicts(identity, identities, k) {
        let other = choose|other: Seq<char>|
            {
                &&& #[trigger] identities.contains(other)
                &&& other != identity
                &&& projects::parts(other).len() >= k
                &&& projects::suffix(projects::parts(other), k) == projects::suffix(p, k)
            };
        let q = projects::parts(other);
        assert(q.skip(0) == q);
        laws::lemma_parts_are_names(other);
        let last = q.skip(q.len() - k);
        assert(laws::are_names(last) && laws::are_names(end));
        laws::lemma_joined_injective(last, end);
        assert(q.take(q.len() - k) + end == q);
        assert(ends_in(other, end));
    }
    if is_shared(identity, identities, end) {
        let other = choose|other: Seq<char>| #[trigger]
            identities.contains(other) && other != identity && ends_in(other, end);
        let q = projects::parts(other);
        let front = choose|front: Seq<Seq<char>>| #[trigger] (front + end) == q;
        assert(q.skip(q.len() - k) == end);
        assert(q.skip(0) == q);
        assert(projects::suffix(q, k) == projects::suffix(p, k));
    }
}

proof fn lemma_label_reaches(identity: Seq<char>, identities: Set<Seq<char>>, from: int, n: int)
    requires
        1 <= from <= n <= projects::parts(identity).len(),
        n < projects::parts(identity).len() ==> !projects::conflicts(identity, identities, n),
        forall|k: int|
            from <= k < n ==> #[trigger] projects::conflicts(identity, identities, k),
    ensures
        projects::label_len(identity, identities, from) == n,
    decreases n - from,
{
    if from < n {
        assert(projects::conflicts(identity, identities, from));
        lemma_label_reaches(identity, identities, from + 1, n);
    }
}

/// The identities of projects are those that one of them has.
pub proof fn law_identities_are_those_of_the_projects(
    sources: Seq<ProjectSource>,
    strings: Seq<String>,
    identity: Seq<char>,
)
    ensures
        projects::identities_of(sources).contains(identity) <==> exists|i: int|
            0 <= i < sources.len() && projects::identity_of(#[trigger] sources[i]) == identity,
        projects::identity_set(strings).contains(identity) <==> exists|i: int|
            0 <= i < strings.len() && (#[trigger] strings[i])@ == identity,
{
    let all = Seq::new(sources.len(), |i: int| projects::identity_of(sources[i]));
    if exists|i: int|
        0 <= i < sources.len() && projects::identity_of(#[trigger] sources[i]) == identity {
        let i = choose|i: int|
            0 <= i < sources.len() && projects::identity_of(#[trigger] sources[i]) == identity;
        assert(all[i] == identity);
        assert(all.contains(identity));
    }
    if projects::identities_of(sources).contains(identity) {
        assert(all.contains(identity));
        let i = choose|i: int| 0 <= i < all.len() && all[i] == identity;
        assert(projects::identity_of(sources[i]) == identity);
    }
    let texts = text::texts(strings);
    if exists|i: int| 0 <= i < strings.len() && (#[trigger] strings[i])@ == identity {
        let i = choose|i: int| 0 <= i < strings.len() && (#[trigger] strings[i])@ == identity;
        assert(texts[i] == identity);
        assert(texts.contains(identity));
    }
    if projects::identity_set(strings).contains(identity) {
        assert(texts.contains(identity));
        let i = choose|i: int| 0 <= i < texts.len() && texts[i] == identity;
        assert(strings[i]@ == identity);
    }
}

/// The texts of strings are theirs, one for one.
pub proof fn law_texts_are_one_for_one(strings: Seq<String>)
    ensures
        text::texts(strings).len() == strings.len(),
        forall|i: int|
            0 <= i < strings.len() ==> #[trigger] text::texts(strings)[i] == strings[i]@,
{
}

/// Texts stand as in a dictionary: by the first character in which they differ, and a text
/// before one that goes on after it.
pub proof fn law_dictionary_order(same: Seq<char>, a: Seq<char>, b: Seq<char>)
    ensures
        a.len() > 0 && b.len() > 0 && a[0] != b[0] ==> (projects::text_less(same + a, same + b)
            <==> a[0] < b[0]),
        b.len() > 0 ==> projects::text_less(same, same + b),
        !projects::text_less(same + b, same),
    decreases same.len(),
{
    if same.len() == 0 {
        assert(same + a == a && same + b == b);
    } else {
        let rest = same.drop_first();
        assert((same + a).drop_first() == rest + a);
        assert((same + b).drop_first() == rest + b);
        assert((same + a)[0] == same[0] && (same + b)[0] == same[0]);
        law_dictionary_order(rest, a, b);
    }
}

/// In a mix every row stands once; a row stands before another exactly where it has the
/// higher rank, or the same rank and the label that is first in the dictionary, or the same
/// rank and label and was listed before it.
pub proof fn law_the_most_costly_tools_come_first(
    rows: Seq<ToolCost>,
    order: Seq<usize>,
    a: int,
    b: int,
)
    requires
        projects::is_mix_order(rows, order),
        0 <= a < order.len(),
        0 <= b < order.len(),
        a != b,
    ensures
        forall|p: usize| #[trigger] order.contains(p) <==> p < rows.len(),
        order[a] != order[b],
        ({
            let (x, y) = (rows[order[a] as int], rows[order[b] as int]);
            let (s, t) = (call::short_label(x.tool@), call::short_label(y.tool@));
            a < b <==> {
                ||| x.rank > y.rank
                ||| x.rank == y.rank && projects::text_less(s, t)
                ||| x.rank == y.rank && s == t && order[a] < order[b]
            }
        }),
{
    let less = projects::mix_less(rows);
    let (x, y) = (rows[order[a] as int], rows[order[b] as int]);
    let (s, t) = (call::short_label(x.tool@), call::short_label(y.tool@));
    projects::lemma_text_less_total(s, t);
    law_dictionary_order(s, Seq::empty(), Seq::empty());
    assert(s + Seq::<char>::empty() == s);
    projects::lemma_text_less_transitive(s, t, s);
    if a < b {
        assert(ordering::comes_first(less, order[a] as int, order[b] as int));
    } else {
        assert(ordering::comes_first(less, order[b] as int, order[a] as int));
    }
}

/// A mix is written as the short label and the cost of each tool that is shown, a space
/// between them and two between each two tools.
pub proof fn law_a_mix_is_written_out(rows: Seq<ToolCost>, order: Seq<usize>, n: int)
    requires
        1 <= n <= order.len(),
    ensures
        ({
            let row = rows[order[n - 1] as int];
            let cell = call::short_label(row.tool@) + " "@ + row.money@;
            &&& n == 1 ==> projects::mix_text(rows, order, n) == cell
            &&& n > 1 ==> projects::mix_text(rows, order, n) == projects::mix_text(
                rows,
                order,
                n - 1,
            ) + "  "@ + cell
        }),
{
}

} // verus!
