//! Where a path leads in a document that parts are put into and taken out of.
use crate::laws::values::value_at;
use crate::xmlutil::{
    chain_of, child_from, child_of, deeper, descendant_from, descendant_of, end_of, find_in,
    is_deep, is_direct, lemma_chain, lemma_child, lemma_descendant, lemma_end, lemma_find,
    lemma_pieces, lowered, pieces, same_shape, with_child, with_values, without, without_children,
    Doc,
};
use vstd::prelude::*;

verus! {

/// No node has the name.
pub open spec fn is_free_of(d: Doc, name: Seq<char>) -> bool {
    forall|j: int| 0 <= j < d.len() ==> !(#[trigger] d[j]).is_named(name)
}

/// Where a node stands once a part was put in before the node at `end`.
pub open spec fn moved(j: int, end: int, by: int) -> int {
    if j < end {
        j
    } else {
        j + by
    }
}

proof fn lemma_put_in(d: Doc, at: int, part: Doc)
    requires
        0 <= at < d.len(),
        d[at].depth < usize::MAX,
    ensures
        ({
            let e = with_child(d, at, part);
            let end = end_of(d, at);
            &&& at < end <= d.len()
            &&& e.len() == d.len() + part.len()
            &&& forall|j: int|
                0 <= j < d.len() ==> e[moved(j, end, part.len() as int)] == #[trigger] d[j]
            &&& forall|k: int|
                0 <= k < part.len() ==> {
                    &&& (#[trigger] e[end + k]).depth > d[at].depth
                    &&& e[end + k].content == part[k].content
                }
            &&& end < d.len() ==> d[end].depth <= d[at].depth
            &&& forall|j: int| at < j < end ==> (#[trigger] d[j]).depth > d[at].depth
        }),
{
    lemma_end(d, d[at].depth, at + 1);
    let end = end_of(d, at);
    let low = lowered(part, deeper(d[at].depth, 1));
    let e = with_child(d, at, part);
    assert(e.len() == d.len() + part.len());
    assert forall|k: int| 0 <= k < part.len() implies {
        &&& (#[trigger] e[end + k]).depth > d[at].depth
        &&& e[end + k].content == part[k].content
    } by {
        assert(e[end + k] == low[k]);
    }
    assert forall|j: int| 0 <= j < d.len() implies e[moved(j, end, part.len() as int)]
        == #[trigger] d[j] by {
        if j >= end {
            assert(e[j + part.len()] == d.subrange(end, d.len() as int)[j - end]);
        }
    }
}

/// The nodes between a parent and its child are below the parent.
proof fn lemma_between(d: Doc, x: int, name: Seq<char>, i: int)
    requires
        0 <= x < d.len(),
        child_of(d, x, name) matches Some(c) && x < i <= c,
    ensures
        d[i].depth > d[x].depth,
{
    lemma_child(d, d[x].depth, x + 1, name);
    lemma_end(d, d[x].depth, x + 1);
}

proof fn lemma_child_depth(d: Doc, depth: usize, j: int, name: Seq<char>)
    requires
        0 <= j <= d.len(),
    ensures
        child_from(d, depth, j, name) matches Some(c) ==> d[c].depth == depth + 1,
    decreases d.len() - j,
{
    if j < d.len() && d[j].depth > depth && !(d[j].depth == depth + 1 && d[j].is_named(name)) {
        lemma_child_depth(d, depth, j + 1, name);
    }
}

proof fn lemma_pass_children(e: Doc, depth: usize, from: int, to: int, name: Seq<char>)
    requires
        0 <= from <= to <= e.len(),
        forall|k: int| from <= k < to ==> (#[trigger] e[k]).depth > depth + 1,
    ensures
        child_from(e, depth, from, name) == child_from(e, depth, to, name),
    decreases to - from,
{
    if from < to {
        lemma_pass_children(e, depth, from + 1, to, name);
    }
}

proof fn lemma_child_moves(d: Doc, at: int, part: Doc, x: int, j: int, name: Seq<char>)
    requires
        0 <= at < d.len(),
        d[at].depth < usize::MAX,
        0 <= x < j <= d.len(),
        child_of(d, x, name) matches Some(c) && j <= c && child_from(d, d[x].depth, j, name)
            == Some(c),
    ensures
        child_from(
            with_child(d, at, part),
            d[x].depth,
            moved(j, end_of(d, at), part.len() as int),
            name,
        ) == Some(moved(child_of(d, x, name)->0, end_of(d, at), part.len() as int)),
    decreases d.len() - j,
{
    let e = with_child(d, at, part);
    let end = end_of(d, at);
    let n = part.len() as int;
    let c = child_of(d, x, name)->0;
    let depth = d[x].depth;
    lemma_put_in(d, at, part);
    lemma_child(d, depth, x + 1, name);
    assert(e[moved(j, end, n)] == d[j]);
    if j < c {
        lemma_between(d, x, name, j);
        lemma_between(d, x, name, j + 1);
        assert(d[j].depth > depth);
        assert(child_from(d, depth, j + 1, name) == Some(c)) by {
            if d[j].depth == depth + 1 && d[j].is_named(name) {
                assert(child_from(d, depth, j, name) == Some(j));
            }
        }
        lemma_child_moves(d, at, part, x, j + 1, name);
        if j + 1 == end {
            assert(d[at].depth > depth) by {
                if at <= x {
                    if at < x {
                        assert(d[x].depth > d[at].depth);
                    }
                    assert(d[end].depth > depth);
                } else {
                    lemma_between(d, x, name, at);
                }
            }
            assert forall|k: int| end <= k < end + n
                implies (#[trigger] e[k]).depth > depth + 1 by {
                assert(e[end + (k - end)].depth > d[at].depth);
            }
            lemma_pass_children(e, depth, end, end + n, name);
        }
    } else {
        lemma_child_depth(d, depth, x + 1, name);
    }
}

proof fn lemma_child_follows(d: Doc, at: int, part: Doc, x: int, name: Seq<char>)
    requires
        0 <= at < d.len(),
        d[at].depth < usize::MAX,
        0 <= x < d.len(),
        child_of(d, x, name) is Some,
    ensures
        ({
            let end = end_of(d, at);
            let n = part.len() as int;
            child_of(with_child(d, at, part), moved(x, end, n), name) == Some(
                moved(child_of(d, x, name)->0, end, n),
            )
        }),
{
    let e = with_child(d, at, part);
    let end = end_of(d, at);
    let n = part.len() as int;
    let c = child_of(d, x, name)->0;
    let depth = d[x].depth;
    lemma_put_in(d, at, part);
    lemma_child(d, depth, x + 1, name);
    lemma_child_moves(d, at, part, x, x + 1, name);
    assert(e[moved(x, end, n)] == d[x]);
    if x + 1 == end {
        lemma_between(d, x, name, x + 1);
        assert(false) by {
            if at < x {
                assert(d[x].depth > d[at].depth);
            }
        }
    }
}

proof fn lemma_chain_follows(d: Doc, at: int, part: Doc, x: int, names: Seq<Seq<char>>)
    requires
        0 <= at < d.len(),
        d[at].depth < usize::MAX,
        0 <= x < d.len(),
        chain_of(d, x, names) is Some,
    ensures
        ({
            let end = end_of(d, at);
            let n = part.len() as int;
            chain_of(with_child(d, at, part), moved(x, end, n), names) == Some(
                moved(chain_of(d, x, names)->0, end, n),
            )
        }),
    decreases names.len(),
{
    if names.len() > 0 {
        lemma_chain_follows(d, at, part, x, names.drop_last());
        lemma_chain(d, x, names.drop_last());
        lemma_child_follows(d, at, part, chain_of(d, x, names.drop_last())->0, names.last());
    }
}

proof fn lemma_pass_descendants(e: Doc, depth: usize, from: int, to: int, name: Seq<char>)
    requires
        0 <= from <= to <= e.len(),
        forall|k: int|
            from <= k < to ==> (#[trigger] e[k]).depth > depth && !e[k].is_named(name),
    ensures
        descendant_from(e, depth, from, name) == descendant_from(e, depth, to, name),
    decreases to - from,
{
    if from < to {
        lemma_pass_descendants(e, depth, from + 1, to, name);
    }
}

proof fn lemma_descendant_moves(d: Doc, at: int, part: Doc, j: int, name: Seq<char>)
    requires
        0 <= at < d.len(),
        d[at].depth < usize::MAX,
        0 < j <= d.len(),
        is_free_of(part, name),
        d[0].depth == 0,
        descendant_from(d, 0, j, name) is Some,
    ensures
        descendant_from(
            with_child(d, at, part),
            0,
            moved(j, end_of(d, at), part.len() as int),
            name,
        ) == Some(moved(descendant_from(d, 0, j, name)->0, end_of(d, at), part.len() as int)),
    decreases d.len() - j,
{
    let e = with_child(d, at, part);
    let end = end_of(d, at);
    let n = part.len() as int;
    lemma_put_in(d, at, part);
    lemma_descendant(d, 0, j, name);
    assert(e[moved(j, end, n)] == d[j]);
    if !d[j].is_named(name) {
        lemma_descendant_moves(d, at, part, j + 1, name);
        if j + 1 == end {
            assert forall|k: int| end <= k < end + n implies (#[trigger] e[k]).depth > 0
                && !e[k].is_named(name) by {
                assert(e[end + (k - end)].depth > d[at].depth);
                assert(!part[k - end].is_named(name));
            }
            lemma_pass_descendants(e, 0, end, end + n, name);
        }
    }
}

/// The name that a path looks for first, anywhere below.
pub open spec fn first_name(path: Seq<char>) -> Seq<char> {
    pieces(path.skip(3))[0]
}

/// A path that led somewhere still leads there when a part is put in, as long as the part does not
/// have what the path looks for first.
pub proof fn law_paths_lead_past_new_parts(d: Doc, at: int, part: Doc, path: Seq<char>)
    requires
        0 <= at < d.len(),
        d[at].depth < usize::MAX,
        d[0].depth == 0,
        is_direct(path),
        is_deep(path) ==> is_free_of(part, first_name(path)),
        find_in(d, 0, path) is Some,
    ensures
        ({
            let e = with_child(d, at, part);
            let i = find_in(d, 0, path)->0;
            let j = find_in(e, 0, path)->0;
            &&& find_in(e, 0, path) is Some
            &&& 0 <= j < e.len()
            &&& e[j] == d[i]
            &&& value_at(e, 0, path) == value_at(d, 0, path)
            &&& e[0] == d[0]
            &&& e[at] == d[at]
        }),
{
    let e = with_child(d, at, part);
    let end = end_of(d, at);
    let n = part.len() as int;
    lemma_put_in(d, at, part);
    lemma_find(d, 0, path);
    assert(e[moved(0, end, n)] == d[0]);
    assert(e[moved(at, end, n)] == d[at]);
    if is_deep(path) {
        let names = pieces(path.skip(3));
        lemma_pieces(path.skip(3));
        if end == 1 {
            assert(at == 0);
            lemma_descendant(d, 0, 1, names[0]);
            assert(d[end].depth <= d[at].depth);
            assert(false);
        }
        lemma_descendant_moves(d, at, part, 1, names[0]);
        let p = descendant_of(d, 0, names[0])->0;
        lemma_descendant(d, 0, 1, names[0]);
        lemma_chain_follows(d, at, part, p, names.skip(1));
    } else {
        lemma_chain_follows(d, at, part, 0, pieces(path.skip(2)));
    }
    let i = find_in(d, 0, path)->0;
    assert(e[moved(i, end, n)] == d[i]);
}

/// Where a node stands once those from one place up to another were taken out.
pub open spec fn closed_up(j: int, from: int, to: int) -> int {
    if j < from {
        j
    } else if j < to {
        from
    } else {
        j - (to - from)
    }
}

/// The document without the nodes from one place up to another.
pub open spec fn cut(d: Doc, from: int, to: int) -> Doc {
    d.subrange(0, from) + d.subrange(to, d.len() as int)
}

/// The nodes from one place up to another are whole parts of the document.
pub open spec fn are_whole(d: Doc, from: int, to: int) -> bool {
    &&& 0 < from <= to <= d.len()
    &&& to < d.len() ==> forall|j: int|
        from <= j < to ==> d[to].depth <= (#[trigger] d[j]).depth
}

proof fn lemma_taken_out(d: Doc, from: int, to: int)
    requires
        are_whole(d, from, to),
    ensures
        ({
            let e = cut(d, from, to);
            &&& e.len() == d.len() - (to - from)
            &&& forall|j: int|
                0 <= j < d.len() && !(from <= j < to) ==> e[closed_up(j, from, to)]
                    == #[trigger] d[j]
        }),
{
    let e = cut(d, from, to);
    assert forall|j: int| 0 <= j < d.len() && !(from <= j < to) implies e[closed_up(j, from, to)]
        == #[trigger] d[j] by {
        if j >= to {
            assert(e[j - (to - from)] == d.subrange(to, d.len() as int)[j - to]);
        }
    }
}

proof fn lemma_child_closes(d: Doc, from: int, to: int, depth: usize, j: int, name: Seq<char>)
    requires
        are_whole(d, from, to),
        0 <= j <= d.len(),
        child_from(d, depth, j, name) matches Some(c) && !(from <= c < to),
    ensures
        child_from(cut(d, from, to), depth, closed_up(j, from, to), name) == Some(
            closed_up(child_from(d, depth, j, name)->0, from, to),
        ),
    decreases d.len() - j,
{
    let e = cut(d, from, to);
    lemma_taken_out(d, from, to);
    lemma_child(d, depth, j, name);
    if !(d[j].depth == depth + 1 && d[j].is_named(name)) {
        lemma_child_closes(d, from, to, depth, j + 1, name);
    }
    if !(from <= j < to) {
        assert(e[closed_up(j, from, to)] == d[j]);
    }
}

proof fn lemma_descendant_closes(d: Doc, from: int, to: int, depth: usize, j: int, name: Seq<char>)
    requires
        are_whole(d, from, to),
        0 <= j <= d.len(),
        descendant_from(d, depth, j, name) matches Some(c) && !(from <= c < to),
    ensures
        descendant_from(cut(d, from, to), depth, closed_up(j, from, to), name) == Some(
            closed_up(descendant_from(d, depth, j, name)->0, from, to),
        ),
    decreases d.len() - j,
{
    let e = cut(d, from, to);
    lemma_taken_out(d, from, to);
    lemma_descendant(d, depth, j, name);
    if !d[j].is_named(name) {
        lemma_descendant_closes(d, from, to, depth, j + 1, name);
    }
    if !(from <= j < to) {
        assert(e[closed_up(j, from, to)] == d[j]);
    }
}

/// What is below a node of a whole part is in the part.
proof fn lemma_child_inside(d: Doc, from: int, to: int, x: int, name: Seq<char>)
    requires
        are_whole(d, from, to),
        from <= x < to,
        child_of(d, x, name) is Some,
    ensures
        from <= child_of(d, x, name)->0 < to,
{
    lemma_child(d, d[x].depth, x + 1, name);
    let c = child_of(d, x, name)->0;
    if to <= c {
        lemma_between(d, x, name, to);
        assert(d[to].depth <= d[x].depth);
    }
}

proof fn lemma_chain_closes(d: Doc, from: int, to: int, x: int, names: Seq<Seq<char>>)
    requires
        are_whole(d, from, to),
        0 <= x < d.len(),
        chain_of(d, x, names) matches Some(i) && !(from <= i < to),
    ensures
        !(from <= x < to),
        chain_of(cut(d, from, to), closed_up(x, from, to), names) == Some(
            closed_up(chain_of(d, x, names)->0, from, to),
        ),
    decreases names.len(),
{
    if names.len() > 0 {
        let e = cut(d, from, to);
        lemma_chain(d, x, names.drop_last());
        let q = chain_of(d, x, names.drop_last())->0;
        if from <= q < to {
            lemma_child_inside(d, from, to, q, names.last());
        }
        lemma_chain_closes(d, from, to, x, names.drop_last());
        lemma_taken_out(d, from, to);
        lemma_child_closes(d, from, to, d[q].depth, q + 1, names.last());
        assert(e[closed_up(q, from, to)] == d[q]);
        if q + 1 == from {
            assert(closed_up(q + 1, from, to) == from);
        }
    }
}

/// A path that led somewhere still leads there when a whole part is taken out that it does not
/// lead into.
pub proof fn law_paths_lead_past_what_is_cut(d: Doc, from: int, to: int, path: Seq<char>)
    requires
        are_whole(d, from, to),
        is_direct(path),
        find_in(d, 0, path) matches Some(i) && !(from <= i < to),
    ensures
        ({
            let e = cut(d, from, to);
            let i = find_in(d, 0, path)->0;
            let j = find_in(e, 0, path)->0;
            &&& find_in(e, 0, path) is Some
            &&& 0 <= j < e.len()
            &&& e[j] == d[i]
            &&& value_at(e, 0, path) == value_at(d, 0, path)
            &&& e[0] == d[0]
        }),
{
    let e = cut(d, from, to);
    lemma_taken_out(d, from, to);
    lemma_find(d, 0, path);
    assert(e[closed_up(0, from, to)] == d[0]);
    if is_deep(path) {
        let names = pieces(path.skip(3));
        lemma_pieces(path.skip(3));
        lemma_descendant(d, d[0].depth, 1, names[0]);
        let p = descendant_of(d, 0, names[0])->0;
        lemma_chain_closes(d, from, to, p, names.skip(1));
        lemma_descendant_closes(d, from, to, d[0].depth, 1, names[0]);
    } else {
        lemma_chain_closes(d, from, to, 0, pieces(path.skip(2)));
    }
    let i = find_in(d, 0, path)->0;
    assert(e[closed_up(i, from, to)] == d[i]);
}

/// The same where a node is taken out with all that is below it.
pub proof fn law_paths_lead_past_what_is_gone(d: Doc, clip: int, path: Seq<char>)
    requires
        0 < clip < d.len(),
        is_direct(path),
        find_in(d, 0, path) matches Some(i) && !(clip <= i < end_of(d, clip)),
    ensures
        ({
            let e = without(d, clip);
            let i = find_in(d, 0, path)->0;
            let j = find_in(e, 0, path)->0;
            &&& find_in(e, 0, path) is Some
            &&& 0 <= j < e.len()
            &&& e[j] == d[i]
            &&& value_at(e, 0, path) == value_at(d, 0, path)
            &&& e[0] == d[0]
        }),
{
    lemma_end(d, d[clip].depth, clip + 1);
    assert(without(d, clip) =~= cut(d, clip, end_of(d, clip)));
    law_paths_lead_past_what_is_cut(d, clip, end_of(d, clip), path);
}

/// The same where only what is below a node is taken out.
pub proof fn law_paths_lead_past_what_is_cleared(d: Doc, at: int, path: Seq<char>)
    requires
        0 <= at < d.len(),
        is_direct(path),
        find_in(d, 0, path) matches Some(i) && !(at < i < end_of(d, at)),
    ensures
        ({
            let e = without_children(d, at);
            let i = find_in(d, 0, path)->0;
            let j = find_in(e, 0, path)->0;
            &&& find_in(e, 0, path) is Some
            &&& 0 <= j < e.len()
            &&& e[j] == d[i]
            &&& value_at(e, 0, path) == value_at(d, 0, path)
            &&& e[0] == d[0]
            &&& at < e.len() && e[at] == d[at]
        }),
{
    lemma_end(d, d[at].depth, at + 1);
    assert(without_children(d, at) =~= cut(d, at + 1, end_of(d, at)));
    law_paths_lead_past_what_is_cut(d, at + 1, end_of(d, at), path);
}

/// The last two characters of a path are those of its last name.
pub open spec fn ends_in_name(path: Seq<char>) -> bool {
    &&& path.len() >= 5
    &&& is_direct(path)
    &&& path[path.len() - 1] != '/'
    &&& path[path.len() - 2] != '/'
}

pub open spec fn end_alike(a: Seq<char>, b: Seq<char>) -> bool {
    &&& a[a.len() - 1] == b[b.len() - 1]
    &&& a[a.len() - 2] == b[b.len() - 2]
}

proof fn lemma_last_piece(s: Seq<char>)
    requires
        s.len() >= 2,
        s[s.len() - 1] != '/',
        s[s.len() - 2] != '/',
    ensures
        pieces(s).last().len() >= 2,
        end_alike(pieces(s).last(), s),
{
    let t = s.drop_last();
    lemma_pieces(t.drop_last());
    lemma_pieces(t);
    let before = pieces(t.drop_last());
    assert(pieces(t) == before.drop_last().push(before.last().push(t.last())));
    assert(pieces(s) == pieces(t).drop_last().push(pieces(t).last().push(s.last())));
    assert(pieces(t).last() == before.last().push(t.last()));
}

/// A path leads to an element of its last name.
pub proof fn lemma_leads_to_its_name(d: Doc, at: int, path: Seq<char>, i: int, name: Seq<char>)
    requires
        0 <= at < d.len(),
        ends_in_name(path),
        is_deep(path) ==> path.len() >= 5,
        find_in(d, at, path) == Some(i),
        d[i].is_named(name),
    ensures
        name.len() >= 2,
        end_alike(name, path),
{
    if is_deep(path) {
        let s = path.skip(3);
        let names = pieces(s);
        lemma_pieces(s);
        lemma_last_piece(s);
        lemma_descendant(d, d[at].depth, at + 1, names[0]);
        lemma_chain(d, descendant_of(d, at, names[0])->0, names.skip(1));
        if names.len() > 1 {
            assert(names.skip(1).last() == names.last());
        }
        assert(d[i].is_named(names.last()));
    } else {
        let s = path.skip(2);
        lemma_pieces(s);
        lemma_last_piece(s);
        lemma_chain(d, at, pieces(s));
    }
}

/// None of the values is set at a path that ends as this one does.
pub open spec fn end_otherwise(list: Seq<(Seq<char>, Seq<char>)>, path: Seq<char>) -> bool {
    forall|k: int|
        0 <= k < list.len() ==> ends_in_name((#[trigger] list[k]).0) && !end_alike(
            list[k].0,
            path,
        )
}

/// Values at paths that end otherwise leave an element as it is.
pub proof fn law_other_values_are_kept(
    d: Doc,
    at: int,
    list: Seq<(Seq<char>, Seq<char>)>,
    path: Seq<char>,
    i: int,
    name: Seq<char>,
)
    requires
        0 <= at < d.len(),
        0 <= i < d.len(),
        d[i].is_named(name),
        name.len() >= 2,
        path.len() >= 2,
        end_alike(name, path),
        end_otherwise(list, path),
    ensures
        with_values(d, at, list) matches Some(e) ==> same_shape(d, e) && e[i] == d[i],
    decreases list.len(),
{
    if list.len() > 0 {
        let rest = list.drop_last();
        assert forall|k: int| 0 <= k < rest.len() implies ends_in_name((#[trigger] rest[k]).0)
            && !end_alike(rest[k].0, path) by {
            assert(rest[k] == list[k]);
        }
        law_other_values_are_kept(d, at, rest, path, i, name);
        match with_values(d, at, rest) {
            None => {},
            Some(e) => {
                let last = list[list.len() - 1];
                lemma_find(e, at, last.0);
                match find_in(e, at, last.0) {
                    None => {},
                    Some(j) => {
                        assert(e[i].is_named(name) == d[i].is_named(name));
                        if j == i {
                            lemma_leads_to_its_name(e, at, last.0, i, name);
                        }
                        let f = with_values(d, at, list)->0;
                        lemma_shape_step(d, e, f, j);
                    },
                }
            },
        }
    }
}

proof fn lemma_shape_step(d: Doc, e: Doc, f: Doc, j: int)
    requires
        same_shape(d, e),
        0 <= j < e.len(),
        exists|k: Seq<char>, v: Seq<char>| f == e.update(j, #[trigger] e[j].with_attribute(k, v)),
    ensures
        same_shape(d, f),
{
    assert forall|i: int| 0 <= i < d.len() implies (#[trigger] d[i]).depth == f[i].depth by {
        assert(d[i].depth == e[i].depth);
    }
    assert forall|i: int, name: Seq<char>| 0 <= i < d.len() implies (#[trigger] d[i].is_named(name))
        == f[i].is_named(name) by {
        assert(d[i].is_named(name) == e[i].is_named(name));
    }
}

} // verus!
