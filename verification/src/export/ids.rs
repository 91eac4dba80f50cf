//! The identities of a Live set.
//!
//! Every `Id` attribute that Live treats as a global identity is numbered from one counter when
//! a track is copied: duplicates among them make Live report the project as damaged. Which tags
//! those are is not documented; every locally scoped `Id` is a small index and every global one
//! a large number, so any `Id` from 1000 on is renumbered, whatever its tag. References to
//! those (`PointeeId`) are rewritten to match.
use crate::text::{chars_of, decimal, digits, lemma_digits_len, push_decimal};
use crate::xmlutil::{is_tree, with_attribute, Doc, Document, NodeView};
use vstd::prelude::*;

verus! {

/// From this number on an `Id` is a global identity.
pub const LOCAL_ID_THRESHOLD: u64 = 1000;

/// The text is made of ASCII digits, at least one.
pub open spec fn is_number(s: Seq<char>) -> bool {
    s.len() > 0 && forall|i: int| 0 <= i < s.len() ==> '0' <= #[trigger] s[i] && s[i] <= '9'
}

/// The number that digits stand for.
pub open spec fn number(s: Seq<char>) -> int
    decreases s.len(),
{
    if s.len() == 0 {
        0
    } else {
        10 * number(s.drop_last()) + (s.last() as int - '0' as int)
    }
}

/// The text is a number that fits 64 bits with a sign.
pub open spec fn is_small_number(s: Seq<char>) -> bool {
    is_number(s) && number(s) <= i64::MAX
}

proof fn lemma_prefix_is_number(s: Seq<char>, k: int)
    requires
        is_number(s),
        0 < k <= s.len(),
    ensures
        is_number(s.take(k)),
{
    assert forall|i: int| 0 <= i < k implies '0' <= #[trigger] s.take(k)[i] && s.take(k)[i]
        <= '9' by {
        assert('0' <= s[i] && s[i] <= '9');
    }
}

proof fn lemma_number_grows(s: Seq<char>, k: int)
    requires
        is_number(s),
        0 <= k <= s.len(),
    ensures
        0 <= number(s.take(k)) <= number(s),
    decreases s.len(),
{
    let d = s.drop_last();
    let n = s.len() as int;
    assert('0' <= s[n - 1] && s[n - 1] <= '9');
    assert(d =~= s.take(n - 1));
    if n > 1 {
        lemma_prefix_is_number(s, n - 1);
        lemma_number_grows(d, if k < n {
            k
        } else {
            0
        });
        if k < n {
            assert(d.take(k) =~= s.take(k));
        }
        assert(0 <= number(d));
    } else {
        assert(d =~= Seq::<char>::empty());
        assert(number(d) == 0);
    }
    if k == n {
        assert(s.take(k) =~= s);
    } else if n == 1 {
        assert(s.take(k) =~= Seq::<char>::empty());
    }
}

/// The number that a text stands for, if it is one and fits.
pub fn parse_number(text: &str) -> (r: Option<u64>)
    ensures
        match r {
            Some(n) => is_small_number(text@) && n == number(text@) && n <= i64::MAX,
            None => !is_small_number(text@),
        },
{
    let chars: Vec<char> = chars_of(text);
    if chars.len() == 0 {
        return None;
    }
    let mut n: u64 = 0;
    let mut i: usize = 0;
    assert(text@.take(0) =~= Seq::<char>::empty());
    while i < chars.len()
        invariant
            i <= chars.len(),
            chars@ == text@,
            chars.len() > 0,
            n == number(text@.take(i as int)),
            n <= i64::MAX,
            forall|j: int| 0 <= j < i ==> '0' <= #[trigger] text@[j] && text@[j] <= '9',
        decreases chars.len() - i,
    {
        let c: char = chars[i];
        if !('0' <= c && c <= '9') {
            assert(!('0' <= text@[i as int] && text@[i as int] <= '9'));
            return None;
        }
        let v: u64 = c as u64 - '0' as u64;
        proof {
            assert(text@.take(i + 1).drop_last() =~= text@.take(i as int));
            assert(text@.take(i + 1).last() == c);
        }
        let next: u128 = n as u128 * 10 + v as u128;
        if next > i64::MAX as u128 {
            proof {
                if is_number(text@) {
                    lemma_number_grows(text@, i + 1);
                }
            }
            return None;
        }
        n = next as u64;
        i += 1;
    }
    assert(text@.take(i as int) =~= text@);
    Some(n)
}

proof fn lemma_number_of_digits(n: int)
    requires
        0 <= n,
    ensures
        is_number(digits(n, 10, false)),
        number(digits(n, 10, false)) == n,
    decreases n,
{
    let s = digits(n, 10, false);
    lemma_digits_len(n, 10, false);
    if n >= 10 {
        lemma_number_of_digits(n / 10);
        let p = digits(n / 10, 10, false);
        assert(s.drop_last() =~= p);
        assert forall|i: int| 0 <= i < s.len() implies '0' <= #[trigger] s[i] && s[i] <= '9' by {
            if i < p.len() {
                assert(s[i] == p[i]);
            }
        }
    } else {
        assert(s.drop_last() =~= Seq::<char>::empty());
        assert(number(s.drop_last()) == 0);
    }
}

/// A number is read back from its decimal digits, so different numbers have different digits.
pub proof fn law_decimal_reads_back(n: int)
    requires
        0 <= n,
    ensures
        is_number(decimal(n)),
        number(decimal(n)) == n,
{
    lemma_number_of_digits(n);
}

/// The source of new identities.
#[derive(Debug)]
pub struct IdCounter {
    pub next: u64,
}

/// The number behind the given one; the largest stays.
pub open spec fn after(n: u64) -> u64 {
    if n == u64::MAX {
        n
    } else {
        (n + 1) as u64
    }
}

impl IdCounter {
    /// A new identity.
    pub fn take(&mut self) -> (r: u64)
        ensures
            r == old(self).next,
            final(self).next == after(old(self).next),
    {
        let v: u64 = self.next;
        if v < u64::MAX {
            self.next = v + 1;
        }
        v
    }

    /// A new identity, written out.
    pub fn take_text(&mut self) -> (r: String)
        ensures
            r@ == decimal(old(self).next as int),
            final(self).next == after(old(self).next),
    {
        let v: u64 = self.take();
        let mut out: String = String::new();
        push_decimal(&mut out, v);
        assert(Seq::<char>::empty() + decimal(v as int) =~= decimal(v as int));
        out
    }
}

/// The `Id` is a global identity.
pub open spec fn is_global_id(s: Seq<char>) -> bool {
    is_small_number(s) && number(s) >= LOCAL_ID_THRESHOLD
}

/// The node has a global identity.
pub open spec fn has_global_id(n: NodeView) -> bool {
    n.attribute("Id"@) matches Some(v) && is_global_id(v)
}

/// Where the renumbering has come to: the nodes so far, the next identity, and what became of
/// the old ones.
pub struct Renumbering {
    pub nodes: Doc,
    pub next: u64,
    pub renamed: Map<Seq<char>, Seq<char>>,
}

impl Renumbering {
    /// After one more node.
    pub open spec fn step(self, n: NodeView) -> Renumbering {
        if has_global_id(n) {
            let fresh = decimal(self.next as int);
            Renumbering {
                nodes: self.nodes.push(n.with_attribute("Id"@, fresh)),
                next: after(self.next),
                renamed: self.renamed.insert(n.attribute("Id"@)->0, fresh),
            }
        } else {
            Renumbering { nodes: self.nodes.push(n), ..self }
        }
    }
}

/// After the first `k` nodes: the first one keeps its `Id`.
pub open spec fn renumbering(d: Doc, next: u64, k: int) -> Renumbering
    decreases k,
{
    if k <= 1 {
        Renumbering { nodes: d.take(k), next, renamed: Map::empty() }
    } else {
        renumbering(d, next, k - 1).step(d[k - 1])
    }
}

/// A reference to an identity that was renumbered follows it.
pub open spec fn repointed(n: NodeView, renamed: Map<Seq<char>, Seq<char>>) -> NodeView {
    match n.attribute("Value"@) {
        Some(v) => if n.is_named("PointeeId"@) && renamed.contains_key(v) {
            n.with_attribute("Value"@, renamed[v])
        } else {
            n
        },
        None => n,
    }
}

/// The track with new identities below its root.
pub open spec fn renumbered(d: Doc, next: u64) -> Doc {
    let r = renumbering(d, next, d.len() as int);
    r.nodes.map_values(|n: NodeView| repointed(n, r.renamed))
}

/// The next identity behind those that a renumbering took.
pub open spec fn next_after(d: Doc, next: u64) -> u64 {
    renumbering(d, next, d.len() as int).next
}

/// What a list of replacements comes to: the last one for a text counts.
pub open spec fn replacements(list: Seq<(String, String)>) -> Map<Seq<char>, Seq<char>>
    decreases list.len(),
{
    if list.len() == 0 {
        Map::empty()
    } else {
        replacements(list.drop_last()).insert(list.last().0@, list.last().1@)
    }
}

fn replacement_for(list: &Vec<(String, String)>, key: &String) -> (r: Option<String>)
    ensures
        match r {
            Some(v) => replacements(list@).contains_key(key@) && replacements(list@)[key@] == v@,
            None => !replacements(list@).contains_key(key@),
        },
{
    let mut i: usize = list.len();
    assert(list@.take(i as int) =~= list@);
    while i > 0
        invariant
            i <= list.len(),
            replacements(list@).contains_key(key@) == replacements(
                list@.take(i as int),
            ).contains_key(key@),
            replacements(list@).contains_key(key@) ==> replacements(list@)[key@] == replacements(
                list@.take(i as int),
            )[key@],
        decreases i,
    {
        proof {
            assert(list@.take(i as int).drop_last() =~= list@.take(i - 1));
            assert(list@.take(i as int).last() == list[i - 1]);
        }
        if list[i - 1].0 == *key {
            return Some(list[i - 1].1.clone());
        }
        i -= 1;
    }
    assert(list@.take(0) =~= Seq::<(String, String)>::empty());
    None
}

/// New identities move no node.
pub proof fn lemma_renumbering(d: Doc, next: u64, k: int)
    requires
        0 <= k <= d.len(),
    ensures
        renumbering(d, next, k).nodes.len() == k,
        forall|i: int|
            0 <= i < k ==> (#[trigger] renumbering(d, next, k).nodes[i]).depth == d[i].depth,
        forall|i: int|
            0 <= i < k ==> (#[trigger] renumbering(d, next, k).nodes[i]).content is Element
                == d[i].content is Element,
        forall|i: int, name: Seq<char>|
            0 <= i < k ==> (#[trigger] renumbering(d, next, k).nodes[i].is_named(name))
                == d[i].is_named(name),
    decreases k,
{
    if k > 1 {
        lemma_renumbering(d, next, k - 1);
    }
}

/// Gives new identities to everything below the first node of a track. The first node's own
/// `Id` is left to the caller, who may have handed it out already.
pub fn renumber_global_ids(track: &mut Document, ids: &mut IdCounter)
    requires
        old(track).nodes.len() > 0,
    ensures
        final(track)@ == renumbered(old(track)@, old(ids).next),
        final(ids).next == next_after(old(track)@, old(ids).next),
        final(track).nodes.len() == old(track).nodes.len(),
        is_tree(old(track)@) ==> is_tree(final(track)@),
{
    let ghost d = track@;
    let ghost start = ids.next;
    let n: usize = track.nodes.len();
    let mut renamed: Vec<(String, String)> = Vec::new();
    let mut i: usize = 1;
    proof {
        assert(track@ =~= renumbering(d, start, 1).nodes + d.skip(1));
        assert(replacements(renamed@) == Map::<Seq<char>, Seq<char>>::empty());
    }
    while i < n
        invariant
            1 <= i <= n,
            n == track.nodes.len(),
            d.len() == n,
            track@ == renumbering(d, start, i as int).nodes + d.skip(i as int),
            ids.next == renumbering(d, start, i as int).next,
            replacements(renamed@) == renumbering(d, start, i as int).renamed,
            is_tree(d) ==> is_tree(track@),
        decreases n - i,
    {
        proof {
            lemma_renumbering(d, start, i as int);
            assert(track@[i as int] == d[i as int]);
        }
        let ghost before = track@;
        let ghost past = renumbering(d, start, i as int);
        if let Some(value) = track.attribute(i, "Id") {
            if let Some(v) = parse_number(value.as_str()) {
                if v >= LOCAL_ID_THRESHOLD {
                    let fresh: String = ids.take_text();
                    track.set_attribute(i, "Id", fresh.as_str());
                    let ghost earlier = renamed@;
                    renamed.push((value, fresh));
                    assert(renamed@.drop_last() =~= earlier);
                }
            }
        }
        i += 1;
        proof {
            let now = renumbering(d, start, i as int);
            assert(track@ =~= now.nodes + d.skip(i as int));
        }
    }
    let ghost r = renumbering(d, start, n as int);
    proof {
        assert(track@ =~= r.nodes);
        lemma_renumbering(d, start, n as int);
    }
    let ghost whole = renumbered(d, start);
    let mut k: usize = 0;
    assert(track@ =~= whole.take(0) + r.nodes.skip(0));
    while k < n
        invariant
            k <= n,
            n == track.nodes.len(),
            r.nodes.len() == n,
            r == renumbering(d, start, n as int),
            whole == r.nodes.map_values(|n: NodeView| repointed(n, r.renamed)),
            replacements(renamed@) == r.renamed,
            track@ == whole.take(k as int) + r.nodes.skip(k as int),
            is_tree(d) ==> is_tree(track@),
        decreases n - k,
    {
        assert(track@[k as int] == r.nodes[k as int]);
        if track.is_named(k, "PointeeId") {
            if let Some(value) = track.attribute(k, "Value") {
                if let Some(fresh) = replacement_for(&renamed, &value) {
                    track.set_attribute(k, "Value", fresh.as_str());
                }
            }
        }
        assert(whole[k as int] == repointed(r.nodes[k as int], r.renamed));
        k += 1;
        assert(track@ =~= whole.take(k as int) + r.nodes.skip(k as int));
    }
    assert(track@ =~= whole);
}

proof fn lemma_fresh_ids(d: Doc, next: u64, k: int)
    requires
        0 <= k <= d.len(),
        next + d.len() < u64::MAX,
    ensures
        next <= renumbering(d, next, k).next <= next + k,
        forall|i: int|
            1 <= i < k && has_global_id(d[i]) ==> ({
                let v = (#[trigger] renumbering(d, next, k).nodes[i]).attribute("Id"@);
                &&& v is Some
                &&& is_number(v->0)
                &&& next <= number(v->0) < renumbering(d, next, k).next
            }),
        forall|i: int, j: int|
            1 <= i < j < k && has_global_id(d[i]) && has_global_id(d[j]) ==> (
            #[trigger] renumbering(d, next, k).nodes[i]).attribute("Id"@) != (
            #[trigger] renumbering(d, next, k).nodes[j]).attribute("Id"@),
    decreases k,
{
    if k > 1 {
        lemma_fresh_ids(d, next, k - 1);
        lemma_renumbering(d, next, k - 1);
        lemma_renumbering(d, next, k);
        let p = renumbering(d, next, k - 1);
        let r = renumbering(d, next, k);
        law_decimal_reads_back(p.next as int);
        assert forall|i: int| 1 <= i < k && has_global_id(d[i]) implies ({
            let v = (#[trigger] r.nodes[i]).attribute("Id"@);
            &&& v is Some
            &&& is_number(v->0)
            &&& next <= number(v->0) < r.next
        }) by {
            if i < k - 1 {
                assert(r.nodes[i] == p.nodes[i]);
            }
        }
        assert forall|i: int, j: int|
            1 <= i < j < k && has_global_id(d[i]) && has_global_id(d[j]) implies (
        #[trigger] r.nodes[i]).attribute("Id"@) != (#[trigger] r.nodes[j]).attribute("Id"@) by {
            assert(r.nodes[i] == p.nodes[i]);
            if j < k - 1 {
                assert(r.nodes[j] == p.nodes[j]);
            }
        }
    }
}

/// No two nodes below the root of a renumbered track have the same global identity, and all of
/// them are new: not below the counter's number.
pub proof fn law_ids_are_unique(d: Doc, next: u64)
    requires
        next + d.len() < u64::MAX,
    ensures
        forall|i: int|
            1 <= i < d.len() && has_global_id(d[i]) ==> ({
                let v = (#[trigger] renumbered(d, next)[i]).attribute("Id"@);
                &&& v is Some
                &&& is_number(v->0)
                &&& next <= number(v->0) < next_after(d, next)
            }),
        forall|i: int, j: int|
            1 <= i < j < d.len() && has_global_id(d[i]) && has_global_id(d[j]) ==> (
            #[trigger] renumbered(d, next)[i]).attribute("Id"@) != (#[trigger] renumbered(
                d,
                next,
            )[j]).attribute("Id"@),
{
    let n = d.len() as int;
    lemma_fresh_ids(d, next, n);
    lemma_renumbering(d, next, n);
    let r = renumbering(d, next, n);
    reveal_strlit("Id");
    reveal_strlit("Value");
    assert("Id"@ != "Value"@) by {
        assert("Id"@.len() != "Value"@.len());
    }
    assert forall|i: int| 0 <= i < n implies (#[trigger] renumbered(d, next)[i]).attribute("Id"@)
        == r.nodes[i].attribute("Id"@) by {}
}

/// Node `j` below the root had this global identity.
pub open spec fn had_id(d: Doc, j: int, v: Seq<char>) -> bool {
    1 <= j < d.len() && d[j].attribute("Id"@) == Some(v) && is_global_id(v)
}

proof fn lemma_renamed(d: Doc, next: u64, k: int, v: Seq<char>)
    requires
        0 <= k <= d.len(),
    ensures
        renumbering(d, next, k).renamed.contains_key(v) <==> exists|j: int|
            j < k && #[trigger] had_id(d, j, v),
        renumbering(d, next, k).renamed.contains_key(v) ==> exists|j: int|
            j < k && #[trigger] had_id(d, j, v) && renumbering(d, next, k).nodes[j].attribute(
                "Id"@,
            ) == Some(renumbering(d, next, k).renamed[v]),
    decreases k,
{
    if k > 1 {
        lemma_renamed(d, next, k - 1, v);
        lemma_renumbering(d, next, k - 1);
        let p = renumbering(d, next, k - 1);
        let r = renumbering(d, next, k);
        if had_id(d, k - 1, v) {
            assert(r.nodes[k - 1].attribute("Id"@) == Some(r.renamed[v]));
        } else if p.renamed.contains_key(v) {
            let j = choose|j: int|
                j < k - 1 && #[trigger] had_id(d, j, v) && p.nodes[j].attribute("Id"@) == Some(
                    p.renamed[v],
                );
            assert(r.nodes[j] == p.nodes[j]);
            assert(r.renamed[v] == p.renamed[v]);
        }
    }
}

/// A reference to an identity of its own track follows it: it points at a node of the same track
/// that had that identity, by its new one. Any other reference stays as it was.
pub proof fn law_pointees_stay_in_their_track(d: Doc, next: u64, i: int, v: Seq<char>)
    requires
        0 <= i < d.len(),
        d[i].is_named("PointeeId"@),
        d[i].attribute("Value"@) == Some(v),
    ensures
        (exists|j: int| #[trigger] had_id(d, j, v)) ==> exists|j: int| #[trigger]
            had_id(d, j, v) && renumbered(d, next)[j].attribute("Id"@) is Some && renumbered(
                d,
                next,
            )[i].attribute("Value"@) == renumbered(d, next)[j].attribute("Id"@),
        !(exists|j: int| #[trigger] had_id(d, j, v)) ==> renumbered(d, next)[i].attribute(
            "Value"@,
        ) == Some(v),
{
    let n = d.len() as int;
    let r = renumbering(d, next, n);
    lemma_renamed(d, next, n, v);
    lemma_renumbering(d, next, n);
    lemma_other_attributes(d, next, n, i);
    reveal_strlit("Id");
    reveal_strlit("Value");
    assert("Id"@ != "Value"@) by {
        assert("Id"@.len() != "Value"@.len());
    }
    assert(r.nodes[i].is_named("PointeeId"@));
    assert(renumbered(d, next)[i] == repointed(r.nodes[i], r.renamed));
    if exists|j: int| #[trigger] had_id(d, j, v) {
        let m = choose|j: int| #[trigger] had_id(d, j, v);
        assert(m < n && had_id(d, m, v));
        let j = choose|j: int|
            j < n && #[trigger] had_id(d, j, v) && r.nodes[j].attribute("Id"@) == Some(
                r.renamed[v],
            );
        assert(renumbered(d, next)[j] == repointed(r.nodes[j], r.renamed));
        assert(renumbered(d, next)[j].attribute("Id"@) == r.nodes[j].attribute("Id"@));
    }
}

proof fn lemma_other_attributes(d: Doc, next: u64, k: int, i: int)
    requires
        0 <= i < k <= d.len(),
    ensures
        renumbering(d, next, k).nodes[i].attribute("Value"@) == d[i].attribute("Value"@),
    decreases k,
{
    reveal_strlit("Id");
    reveal_strlit("Value");
    assert("Id"@ != "Value"@) by {
        assert("Id"@.len() != "Value"@.len());
    }
    if k > 1 {
        lemma_renumbering(d, next, k - 1);
        if i < k - 1 {
            lemma_other_attributes(d, next, k - 1, i);
        }
    }
}

/// Two tracks that were renumbered one after the other share no global identity below their
/// roots.
pub proof fn law_tracks_share_no_ids(a: Doc, b: Doc, first: u64, second: u64, i: int, j: int)
    requires
        first + a.len() < u64::MAX,
        second + b.len() < u64::MAX,
        next_after(a, first) <= second,
        1 <= i < a.len(),
        1 <= j < b.len(),
        has_global_id(a[i]),
        has_global_id(b[j]),
    ensures
        renumbered(a, first)[i].attribute("Id"@) != renumbered(b, second)[j].attribute("Id"@),
{
    law_ids_are_unique(a, first);
    law_ids_are_unique(b, second);
    let x = renumbered(a, first)[i].attribute("Id"@);
    let y = renumbered(b, second)[j].attribute("Id"@);
    assert(number(x->0) < next_after(a, first));
    assert(second <= number(y->0));
}

/// The largest `Id` among the first nodes, 0 where none is a number.
pub open spec fn largest_id(d: Doc, k: int) -> u64
    decreases k,
{
    if k <= 0 {
        0
    } else {
        let before = largest_id(d, k - 1);
        match d[k - 1].attribute("Id"@) {
            Some(v) => if is_small_number(v) && number(v) > before {
                number(v) as u64
            } else {
                before
            },
            None => before,
        }
    }
}

/// The largest `Id` of the document.
pub fn max_id(doc: &Document) -> (r: u64)
    ensures
        r == largest_id(doc@, doc@.len() as int),
        r <= i64::MAX,
{
    let mut best: u64 = 0;
    let mut i: usize = 0;
    while i < doc.nodes.len()
        invariant
            i <= doc.nodes.len(),
            best == largest_id(doc@, i as int),
            best <= i64::MAX,
        decreases doc.nodes.len() - i,
    {
        if let Some(value) = doc.attribute(i, "Id") {
            if let Some(v) = parse_number(value.as_str()) {
                if v > best {
                    best = v;
                }
            }
        }
        i += 1;
    }
    best
}

/// Every `Id` of the document that is a number is at most the largest one: a counter that
/// starts behind it hands out none that is taken.
pub proof fn law_largest_id_bounds(d: Doc, k: int, i: int)
    requires
        0 <= i < k <= d.len(),
        d[i].attribute("Id"@) matches Some(v) && is_small_number(v),
    ensures
        number(d[i].attribute("Id"@)->0) <= largest_id(d, k),
    decreases k,
{
    if i < k - 1 {
        law_largest_id_bounds(d, k - 1, i);
    }
}

} // verus!
