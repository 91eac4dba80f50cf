//! What is set in a document is found there.
use crate::xmlutil::{
    find_in, law_value_is_read_back, lemma_find, lemma_same_find, same_shape, with_value,
    with_values, Doc,
};
use vstd::prelude::*;

verus! {

/// The value that a document has at a path.
pub open spec fn value_at(d: Doc, at: int, path: Seq<char>) -> Option<Seq<char>> {
    match find_in(d, at, path) {
        Some(i) => d[i].attribute("Value"@),
        None => None,
    }
}

/// The paths lead to different elements.
pub open spec fn lead_apart(d: Doc, at: int, paths: Seq<Seq<char>>) -> bool {
    forall|i: int, j: int|
        0 <= i < j < paths.len() ==> find_in(d, at, #[trigger] paths[i]) != find_in(
            d,
            at,
            #[trigger] paths[j],
        )
}

/// The paths of a list of values.
pub open spec fn paths_of(list: Seq<(Seq<char>, Seq<char>)>) -> Seq<Seq<char>> {
    list.map_values(|v: (Seq<char>, Seq<char>)| v.0)
}

proof fn lemma_value_shape(d: Doc, at: int, path: Seq<char>, value: Seq<char>)
    requires
        0 <= at < d.len(),
    ensures
        with_value(d, at, path, value) matches Some(e) ==> same_shape(d, e),
{
    lemma_find(d, at, path);
}

proof fn lemma_shape_on(d: Doc, e: Doc, f: Doc)
    requires
        same_shape(d, e),
        same_shape(e, f),
    ensures
        same_shape(d, f),
{
    assert forall|i: int| 0 <= i < d.len() implies (#[trigger] d[i]).depth == f[i].depth by {
        assert(e[i].depth == f[i].depth);
    }
    assert forall|i: int, name: Seq<char>| 0 <= i < d.len() implies (#[trigger] d[i].is_named(name))
        == f[i].is_named(name) by {
        assert(d[i].is_named(name) == e[i].is_named(name));
        assert(e[i].is_named(name) == f[i].is_named(name));
    }
}

/// Values that are set at paths to different elements are all found at their paths, which lead
/// where they led before. Elements that no path leads to are as they were.
pub proof fn law_values_are_read_back(d: Doc, at: int, list: Seq<(Seq<char>, Seq<char>)>)
    requires
        0 <= at < d.len(),
        lead_apart(d, at, paths_of(list)),
    ensures
        with_values(d, at, list) matches Some(e) ==> {
            &&& same_shape(d, e)
            &&& forall|k: int|
                0 <= k < list.len() ==> value_at(e, at, (#[trigger] list[k]).0) == Some(list[k].1)
            &&& forall|i: int|
                0 <= i < d.len() && (forall|k: int|
                    0 <= k < list.len() ==> find_in(d, at, (#[trigger] list[k]).0) != Some(i))
                    ==> #[trigger] e[i] == d[i]
        },
    decreases list.len(),
{
    if list.len() > 0 {
        let rest = list.drop_last();
        let last = list.len() - 1;
        assert forall|i: int, j: int| 0 <= i < j < rest.len() implies find_in(
            d,
            at,
            #[trigger] paths_of(rest)[i],
        ) != find_in(d, at, #[trigger] paths_of(rest)[j]) by {
            assert(paths_of(rest)[i] == paths_of(list)[i]);
            assert(paths_of(rest)[j] == paths_of(list)[j]);
        }
        law_values_are_read_back(d, at, rest);
        match with_values(d, at, rest) {
            None => {},
            Some(e) => {
                let (path, value) = list.last();
                lemma_value_shape(e, at, path, value);
                match with_value(e, at, path, value) {
                    None => {},
                    Some(f) => {
                        law_value_is_read_back(e, at, path, value);
                        lemma_shape_on(d, e, f);
                        lemma_same_find(d, e, at, path);
                        let here = find_in(d, at, path)->0;
                        assert forall|k: int| 0 <= k < list.len() implies value_at(
                            f,
                            at,
                            (#[trigger] list[k]).0,
                        ) == Some(list[k].1) by {
                            if k < last {
                                assert(rest[k] == list[k]);
                                lemma_same_find(d, e, at, list[k].0);
                                lemma_same_find(d, f, at, list[k].0);
                                lemma_find(e, at, list[k].0);
                                assert(paths_of(list)[k] == list[k].0);
                                assert(paths_of(list)[last] == path);
                                let i = find_in(d, at, list[k].0)->0;
                                assert(value_at(e, at, rest[k].0) == Some(rest[k].1));
                                assert(i != here);
                                assert(f[i] == e[i]);
                            }
                        }
                        assert forall|i: int|
                            0 <= i < d.len() && (forall|k: int|
                                0 <= k < list.len() ==> find_in(d, at, (#[trigger] list[k]).0)
                                    != Some(i)) implies #[trigger] f[i] == d[i] by {
                            assert(list[last].0 == path);
                            assert forall|k: int| 0 <= k < rest.len() implies find_in(
                                d,
                                at,
                                (#[trigger] rest[k]).0,
                            ) != Some(i) by {
                                assert(rest[k] == list[k]);
                            }
                            assert(e[i] == d[i]);
                        }
                    },
                }
            },
        }
    }
}

} // verus!
