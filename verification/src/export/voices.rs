//! Spreads the notes of one sample over voices.
//!
//! Notes of different channels may share a sample and overlap in time. A track plays one note
//! at a time, so each note gets a voice: notes that share a voice never overlap. Notes are
//! taken in the order of their starts; each takes the first voice that is free, or opens
//! another one, which needs no more voices than any other way. Notes that start at different
//! frames of the sample never share a voice.
use crate::export::simulate::Note;
use crate::export::time::{has_played_out, law_played_out_stays, played_out, Moment};
use vstd::prelude::*;

verus! {

/// The note does not sound any more at `at`: its channel let go of it, or the sample has
/// played out.
pub open spec fn ended_by(n: Note, at: Moment) -> bool {
    n.close.le(at) || (n.natural matches Some(len) && played_out(n.start, len, at))
}

fn has_ended(n: &Note, at: &Moment) -> (r: bool)
    requires
        at.wf(),
    ensures
        r == ended_by(*n, *at),
{
    if n.close.not_after(at) {
        return true;
    }
    match n.natural {
        Some(len) => has_played_out(&n.start, &len, at),
        None => false,
    }
}

/// The notes stand in the order of their starts, and rows have one Speed each.
pub open spec fn in_order(ns: Seq<Note>) -> bool {
    &&& forall|i: int| 0 <= i < ns.len() ==> (#[trigger] ns[i]).start.wf()
    &&& forall|i: int, j: int|
        0 <= i < j < ns.len() ==> (#[trigger] ns[i]).start.le((#[trigger] ns[j]).start)
    &&& forall|i: int, j: int|
        0 <= i < ns.len() && 0 <= j < ns.len() && (#[trigger] ns[i]).start.row == (
        #[trigger] ns[j]).start.row ==> ns[i].start.speed == ns[j].start.speed
}

/// The first voice, from `v` on, whose last note has ended at `at`; the number of voices where
/// there is none.
pub open spec fn first_free(ns: Seq<Note>, lasts: Seq<int>, at: Moment, v: int) -> int
    decreases lasts.len() - v,
{
    if v >= lasts.len() {
        lasts.len() as int
    } else if ended_by(ns[lasts[v]], at) {
        v
    } else {
        first_free(ns, lasts, at, v + 1)
    }
}

/// The last note of each voice, after the first `k` notes, among those that start at frame
/// `offset`.
pub open spec fn lasts(ns: Seq<Note>, offset: u32, k: int) -> Seq<int>
    decreases k,
{
    if k <= 0 {
        Seq::empty()
    } else {
        let before = lasts(ns, offset, k - 1);
        if ns[k - 1].sample_offset_frames != offset {
            before
        } else {
            let v = first_free(ns, before, ns[k - 1].start, 0);
            if v < before.len() {
                before.update(v, k - 1)
            } else {
                before.push(k - 1)
            }
        }
    }
}

/// The voice of a note among those that start at the same frame.
pub open spec fn local_voice(ns: Seq<Note>, i: int) -> int {
    first_free(ns, lasts(ns, ns[i].sample_offset_frames, i), ns[i].start, 0)
}

/// How many voices the notes that start at frame `offset` need.
pub open spec fn group_voices(ns: Seq<Note>, offset: u32) -> nat {
    lasts(ns, offset, ns.len() as int).len()
}

/// The number put into an ascending list, unless it is there.
pub open spec fn insert_ascending(s: Seq<u32>, x: u32) -> Seq<u32>
    decreases s.len(),
{
    if s.len() == 0 || s.last() < x {
        s.push(x)
    } else if s.last() == x {
        s
    } else {
        insert_ascending(s.drop_last(), x).push(s.last())
    }
}

/// The frames that the notes start at, ascending, each once.
pub open spec fn offsets_of(ns: Seq<Note>) -> Seq<u32>
    decreases ns.len(),
{
    if ns.len() == 0 {
        Seq::empty()
    } else {
        insert_ascending(offsets_of(ns.drop_last()), ns.last().sample_offset_frames)
    }
}

/// The voices of those of the frames `offs` that lie below `offset`.
pub open spec fn voices_below(ns: Seq<Note>, offs: Seq<u32>, offset: u32) -> nat
    decreases offs.len(),
{
    if offs.len() == 0 {
        0
    } else {
        voices_below(ns, offs.drop_last(), offset) + (if offs.last() < offset {
            group_voices(ns, offs.last())
        } else {
            0
        })
    }
}

/// The voice of a note: the voices of lower starting frames come first.
pub open spec fn voice_of(ns: Seq<Note>, i: int) -> int {
    voices_below(ns, offsets_of(ns), ns[i].sample_offset_frames) + local_voice(ns, i)
}

/// The next note, from `j` on, on voice `v`.
pub open spec fn next_on_voice(ns: Seq<Note>, v: int, j: int) -> Option<int>
    decreases ns.len() - j,
{
    if j >= ns.len() {
        None
    } else if voice_of(ns, j) == v {
        Some(j)
    } else {
        next_on_voice(ns, v, j + 1)
    }
}

/// When the next note on a note's voice starts.
pub open spec fn next_start(ns: Seq<Note>, i: int) -> Option<Moment> {
    match next_on_voice(ns, voice_of(ns, i), i + 1) {
        Some(j) => Some(ns[j].start),
        None => None,
    }
}

pub open spec fn strictly_ascending(s: Seq<u32>) -> bool {
    forall|i: int, j: int| 0 <= i < j < s.len() ==> s[i] < s[j]
}

proof fn lemma_insert_ascending(s: Seq<u32>, x: u32)
    requires
        strictly_ascending(s),
    ensures
        strictly_ascending(insert_ascending(s, x)),
        forall|y: u32| #[trigger]
            insert_ascending(s, x).contains(y) <==> s.contains(y) || y == x,
    decreases s.len(),
{
    let r = insert_ascending(s, x);
    if s.len() == 0 || s.last() < x {
        assert forall|y: u32| #[trigger] r.contains(y) <==> s.contains(y) || y == x by {
            if r.contains(y) {
                let i = choose|i: int| 0 <= i < r.len() && r[i] == y;
                if i < s.len() {
                    assert(s[i] == y);
                }
            }
            if s.contains(y) {
                let i = choose|i: int| 0 <= i < s.len() && s[i] == y;
                assert(r[i] == y);
            }
            if y == x {
                assert(r[s.len() as int] == y);
            }
        }
    } else if s.last() == x {
        assert(s[s.len() - 1] == x);
    } else {
        let d = s.drop_last();
        lemma_insert_ascending(d, x);
        let p = insert_ascending(d, x);
        assert forall|i: int, j: int| 0 <= i < j < r.len() implies r[i] < r[j] by {
            if j == p.len() {
                assert(p.contains(p[i]));
                if d.contains(p[i]) {
                    let q = choose|q: int| 0 <= q < d.len() && d[q] == p[i];
                    assert(s[q] < s[s.len() - 1]);
                }
            }
        }
        assert forall|y: u32| #[trigger] r.contains(y) <==> s.contains(y) || y == x by {
            if r.contains(y) {
                let i = choose|i: int| 0 <= i < r.len() && r[i] == y;
                if i < p.len() {
                    assert(p.contains(y));
                    if d.contains(y) {
                        let q = choose|q: int| 0 <= q < d.len() && d[q] == y;
                        assert(s[q] == y);
                    }
                } else {
                    assert(s[s.len() - 1] == y);
                }
            }
            if s.contains(y) {
                let i = choose|i: int| 0 <= i < s.len() && s[i] == y;
                if i < d.len() {
                    assert(d[i] == y);
                    assert(p.contains(y));
                    let q = choose|q: int| 0 <= q < p.len() && p[q] == y;
                    assert(r[q] == y);
                } else {
                    assert(r[p.len() as int] == y);
                }
            }
            if y == x {
                assert(p.contains(y));
                let q = choose|q: int| 0 <= q < p.len() && p[q] == y;
                assert(r[q] == y);
            }
        }
    }
}

proof fn lemma_offsets(ns: Seq<Note>)
    ensures
        strictly_ascending(offsets_of(ns)),
        forall|i: int|
            0 <= i < ns.len() ==> offsets_of(ns).contains(
                (#[trigger] ns[i]).sample_offset_frames,
            ),
    decreases ns.len(),
{
    if ns.len() > 0 {
        let d = ns.drop_last();
        lemma_offsets(d);
        lemma_insert_ascending(offsets_of(d), ns.last().sample_offset_frames);
        assert forall|i: int| 0 <= i < ns.len() implies offsets_of(ns).contains(
            (#[trigger] ns[i]).sample_offset_frames,
        ) by {
            if i < d.len() {
                assert(d[i] == ns[i]);
            }
        }
    }
}

proof fn lemma_first_free(ns: Seq<Note>, p: Seq<int>, at: Moment, v: int)
    requires
        0 <= v <= p.len(),
    ensures
        v <= first_free(ns, p, at, v) <= p.len(),
        first_free(ns, p, at, v) < p.len() ==> ended_by(ns[p[first_free(ns, p, at, v)]], at),
        forall|u: int| v <= u < first_free(ns, p, at, v) ==> !ended_by(ns[#[trigger] p[u]], at),
    decreases p.len() - v,
{
    if v < p.len() && !ended_by(ns[p[v]], at) {
        lemma_first_free(ns, p, at, v + 1);
    }
}

/// What the table of last notes holds after `k` notes.
pub(crate) proof fn lemma_lasts(ns: Seq<Note>, offset: u32, k: int)
    requires
        0 <= k <= ns.len(),
    ensures
        ({
            let p = lasts(ns, offset, k);
            &&& p.len() <= k
            &&& forall|v: int|
                0 <= v < p.len() ==> {
                    &&& 0 <= #[trigger] p[v] < k
                    &&& ns[p[v]].sample_offset_frames == offset
                    &&& local_voice(ns, p[v]) == v
                }
            &&& forall|i: int|
                0 <= i < k && (#[trigger] ns[i]).sample_offset_frames == offset ==> {
                    &&& 0 <= local_voice(ns, i) < p.len()
                    &&& i <= p[local_voice(ns, i)]
                }
        }),
    decreases k,
{
    if k > 0 {
        lemma_lasts(ns, offset, k - 1);
        let before = lasts(ns, offset, k - 1);
        if ns[k - 1].sample_offset_frames == offset {
            lemma_first_free(ns, before, ns[k - 1].start, 0);
        }
    }
}

/// How many notes start at frame `offset`.
spec fn group_size(ns: Seq<Note>, offset: u32) -> nat
    decreases ns.len(),
{
    if ns.len() == 0 {
        0
    } else {
        group_size(ns.drop_last(), offset) + (if ns.last().sample_offset_frames == offset {
            1nat
        } else {
            0nat
        })
    }
}

proof fn lemma_lasts_prefix(ns: Seq<Note>, offset: u32, k: int)
    requires
        0 <= k <= ns.len(),
    ensures
        lasts(ns, offset, k).len() <= group_size(ns.take(k), offset),
    decreases k,
{
    if k > 0 {
        lemma_lasts_prefix(ns, offset, k - 1);
        assert(ns.take(k).drop_last() =~= ns.take(k - 1));
        if ns[k - 1].sample_offset_frames == offset {
            lemma_first_free(ns, lasts(ns, offset, k - 1), ns[k - 1].start, 0);
        }
    }
}

spec fn sizes(ns: Seq<Note>, offs: Seq<u32>) -> nat
    decreases offs.len(),
{
    if offs.len() == 0 {
        0
    } else {
        sizes(ns, offs.drop_last()) + group_size(ns, offs.last())
    }
}

proof fn lemma_sizes_push(ns: Seq<Note>, offs: Seq<u32>)
    requires
        ns.len() > 0,
        strictly_ascending(offs),
    ensures
        sizes(ns, offs) <= sizes(ns.drop_last(), offs) + 1,
        !offs.contains(ns.last().sample_offset_frames) ==> sizes(ns, offs) == sizes(
            ns.drop_last(),
            offs,
        ),
    decreases offs.len(),
{
    if offs.len() > 0 {
        let d = offs.drop_last();
        let x = ns.last().sample_offset_frames;
        lemma_sizes_push(ns, d);
        if offs.last() == x {
            assert(!d.contains(x)) by {
                if d.contains(x) {
                    let q = choose|q: int| 0 <= q < d.len() && d[q] == x;
                    assert(offs[q] < offs[offs.len() - 1]);
                }
            }
        }
        if !offs.contains(x) {
            assert(!d.contains(x)) by {
                if d.contains(x) {
                    let q = choose|q: int| 0 <= q < d.len() && d[q] == x;
                    assert(offs[q] == x);
                }
            }
            assert(offs[offs.len() - 1] != x);
        }
    }
}

proof fn lemma_sizes_zero(ns: Seq<Note>, offs: Seq<u32>)
    requires
        ns.len() == 0,
    ensures
        sizes(ns, offs) == 0,
    decreases offs.len(),
{
    if offs.len() > 0 {
        lemma_sizes_zero(ns, offs.drop_last());
    }
}

proof fn lemma_sizes_bound(ns: Seq<Note>, offs: Seq<u32>)
    requires
        strictly_ascending(offs),
    ensures
        sizes(ns, offs) <= ns.len(),
    decreases ns.len(),
{
    if ns.len() == 0 {
        lemma_sizes_zero(ns, offs);
    } else {
        lemma_sizes_bound(ns.drop_last(), offs);
        lemma_sizes_push(ns, offs);
    }
}

spec fn voices_sum(ns: Seq<Note>, offs: Seq<u32>) -> nat
    decreases offs.len(),
{
    if offs.len() == 0 {
        0
    } else {
        voices_sum(ns, offs.drop_last()) + group_voices(ns, offs.last())
    }
}

proof fn lemma_voices_sum(ns: Seq<Note>, offs: Seq<u32>)
    ensures
        voices_sum(ns, offs) <= sizes(ns, offs),
    decreases offs.len(),
{
    if offs.len() > 0 {
        lemma_voices_sum(ns, offs.drop_last());
        lemma_lasts_prefix(ns, offs.last(), ns.len() as int);
        assert(ns.take(ns.len() as int) =~= ns);
    }
}

/// Below the `g`th frame of an ascending list lie the first `g` of it.
proof fn lemma_voices_below(ns: Seq<Note>, offs: Seq<u32>, n: int, g: int)
    requires
        strictly_ascending(offs),
        0 <= g < offs.len(),
        0 <= n <= offs.len(),
    ensures
        n <= g ==> voices_below(ns, offs.take(n), offs[g]) == voices_sum(ns, offs.take(n)),
        n > g ==> voices_below(ns, offs.take(n), offs[g]) == voices_sum(ns, offs.take(g)),
    decreases n,
{
    if n > 0 {
        lemma_voices_below(ns, offs, n - 1, g);
        assert(offs.take(n).drop_last() =~= offs.take(n - 1));
        assert(offs.take(n).last() == offs[n - 1]);
        if n - 1 < g {
            assert(offs[n - 1] < offs[g]);
        } else if n - 1 > g {
            assert(offs[g] < offs[n - 1]);
        }
    }
}

proof fn lemma_voice_parts(ns: Seq<Note>, i: int, g: int)
    requires
        0 <= i < ns.len(),
        0 <= g < offsets_of(ns).len(),
        ns[i].sample_offset_frames == offsets_of(ns)[g],
    ensures
        voice_of(ns, i) == voices_sum(ns, offsets_of(ns).take(g)) + local_voice(ns, i),
        0 <= local_voice(ns, i) < group_voices(ns, offsets_of(ns)[g]),
        voices_sum(ns, offsets_of(ns).take(g + 1)) == voices_sum(ns, offsets_of(ns).take(g))
            + group_voices(ns, offsets_of(ns)[g]),
        voices_sum(ns, offsets_of(ns).take(g + 1)) <= ns.len(),
{
    let offs = offsets_of(ns);
    lemma_offsets(ns);
    lemma_voices_below(ns, offs, offs.len() as int, g);
    assert(offs.take(offs.len() as int) =~= offs);
    lemma_lasts(ns, offs[g], ns.len() as int);
    let t = offs.take(g + 1);
    assert(t.drop_last() =~= offs.take(g));
    assert(t.last() == offs[g]);
    assert(strictly_ascending(t));
    lemma_voices_sum(ns, t);
    lemma_sizes_bound(ns, t);
}

proof fn lemma_voices_sum_grows(ns: Seq<Note>, offs: Seq<u32>, g: int, h: int)
    requires
        0 <= g <= h <= offs.len(),
    ensures
        voices_sum(ns, offs.take(g)) <= voices_sum(ns, offs.take(h)),
    decreases h,
{
    if g < h {
        lemma_voices_sum_grows(ns, offs, g, h - 1);
        assert(offs.take(h).drop_last() =~= offs.take(h - 1));
    }
}

/// Notes that start at different frames of the sample never share a voice.
pub proof fn law_offsets_apart(ns: Seq<Note>, i: int, j: int)
    requires
        0 <= i < ns.len(),
        0 <= j < ns.len(),
        voice_of(ns, i) == voice_of(ns, j),
    ensures
        ns[i].sample_offset_frames == ns[j].sample_offset_frames,
{
    let offs = offsets_of(ns);
    lemma_offsets(ns);
    assert(offs.contains(ns[i].sample_offset_frames));
    assert(offs.contains(ns[j].sample_offset_frames));
    let g = choose|g: int| 0 <= g < offs.len() && offs[g] == ns[i].sample_offset_frames;
    let h = choose|h: int| 0 <= h < offs.len() && offs[h] == ns[j].sample_offset_frames;
    lemma_voice_parts(ns, i, g);
    lemma_voice_parts(ns, j, h);
    if g < h {
        lemma_voices_sum_grows(ns, offs, g + 1, h);
    } else if h < g {
        lemma_voices_sum_grows(ns, offs, h + 1, g);
    }
}

proof fn lemma_ended_stays(ns: Seq<Note>, i: int, j: int, n: Note)
    requires
        in_order(ns),
        0 <= i <= j < ns.len(),
        ended_by(n, ns[i].start),
    ensures
        ended_by(n, ns[j].start),
{
    if i < j {
        assert(ns[i].start.le(ns[j].start));
        if !n.close.le(ns[i].start) {
            law_played_out_stays(n.start, n.natural->0, ns[i].start, ns[j].start);
        }
    }
}

proof fn lemma_apart(ns: Seq<Note>, i: int, j: int)
    requires
        in_order(ns),
        0 <= i < j < ns.len(),
        ns[i].sample_offset_frames == ns[j].sample_offset_frames,
        local_voice(ns, i) == local_voice(ns, j),
    ensures
        ended_by(ns[i], ns[j].start),
    decreases j,
{
    let offset = ns[j].sample_offset_frames;
    let p = lasts(ns, offset, j);
    let v = local_voice(ns, j);
    lemma_lasts(ns, offset, j);
    lemma_first_free(ns, p, ns[j].start, 0);
    assert(v < p.len());
    if i < p[v] {
        lemma_apart(ns, i, p[v]);
        lemma_ended_stays(ns, p[v], j, ns[i]);
    }
}

/// Notes that share a voice never overlap: the earlier has ended when the later starts.
pub proof fn law_voices_never_overlap(ns: Seq<Note>, i: int, j: int)
    requires
        in_order(ns),
        0 <= i < j < ns.len(),
        voice_of(ns, i) == voice_of(ns, j),
    ensures
        ended_by(ns[i], ns[j].start),
{
    law_offsets_apart(ns, i, j);
    lemma_apart(ns, i, j);
}

/// An assignment of voices under which no two notes that start at frame `offset` and share a
/// voice overlap.
pub open spec fn valid_voices(ns: Seq<Note>, offset: u32, voice: spec_fn(int) -> nat) -> bool {
    forall|i: int, j: int|
        0 <= i < j < ns.len() && ns[i].sample_offset_frames == offset
            && ns[j].sample_offset_frames == offset && #[trigger] voice(i) == #[trigger] voice(j)
            ==> ended_by(ns[i], ns[j].start)
}

/// The note that opened the last of the voices in use after `k` notes.
spec fn opener(ns: Seq<Note>, offset: u32, k: int) -> int
    decreases k,
{
    if k <= 0 {
        0
    } else if lasts(ns, offset, k).len() > lasts(ns, offset, k - 1).len() {
        k - 1
    } else {
        opener(ns, offset, k - 1)
    }
}

proof fn lemma_opener(ns: Seq<Note>, offset: u32, k: int)
    requires
        0 <= k <= ns.len(),
        lasts(ns, offset, k).len() > 0,
    ensures
        ({
            let i = opener(ns, offset, k);
            &&& 0 <= i < k
            &&& ns[i].sample_offset_frames == offset
            &&& lasts(ns, offset, i).len() + 1 == lasts(ns, offset, k).len()
            &&& local_voice(ns, i) == lasts(ns, offset, i).len()
        }),
    decreases k,
{
    if k > 0 {
        let before = lasts(ns, offset, k - 1);
        if ns[k - 1].sample_offset_frames == offset {
            lemma_first_free(ns, before, ns[k - 1].start, 0);
        }
        if lasts(ns, offset, k).len() == before.len() {
            lemma_opener(ns, offset, k - 1);
        }
    }
}

/// No way of spreading the notes that start at one frame over voices uses fewer of them.
pub proof fn law_fewest_voices(ns: Seq<Note>, offset: u32, voice: spec_fn(int) -> nat, m: nat)
    requires
        in_order(ns),
        valid_voices(ns, offset, voice),
        forall|i: int|
            0 <= i < ns.len() && (#[trigger] ns[i]).sample_offset_frames == offset ==> voice(i) < m,
    ensures
        group_voices(ns, offset) <= m,
{
    let n = ns.len() as int;
    let count = group_voices(ns, offset);
    if count > 0 {
        lemma_opener(ns, offset, n);
        let o = opener(ns, offset, n);
        let p = lasts(ns, offset, o);
        lemma_lasts(ns, offset, o);
        lemma_first_free(ns, p, ns[o].start, 0);
        // The last notes of the voices before it and the opener itself all sound at its start.
        let busy = p.push(o);
        let taken = busy.map_values(|i: int| voice(i) as int);
        assert forall|a: int, b: int| 0 <= a < b < busy.len() implies taken[a] != taken[b] by {
            let i = busy[a];
            let j = busy[b];
            assert(ns[i].sample_offset_frames == offset && ns[j].sample_offset_frames == offset);
            if voice(i) == voice(j) {
                if b == p.len() {
                    assert(!ended_by(ns[p[a]], ns[o].start));
                    assert(ended_by(ns[i], ns[j].start));
                } else {
                    assert(local_voice(ns, p[a]) == a && local_voice(ns, p[b]) == b);
                    assert(!ended_by(ns[p[a]], ns[o].start) && !ended_by(ns[p[b]], ns[o].start));
                    if i < j {
                        assert(ended_by(ns[i], ns[j].start));
                        lemma_ended_stays(ns, j, o, ns[i]);
                    } else {
                        assert(ended_by(ns[j], ns[i].start));
                        lemma_ended_stays(ns, i, o, ns[j]);
                    }
                }
            }
        }
        assert(taken.no_duplicates());
        assert forall|a: int| 0 <= a < taken.len() implies 0 <= #[trigger] taken[a] < m by {
            let i = busy[a];
            assert(ns[i].sample_offset_frames == offset);
        }
        taken.unique_seq_to_set();
        vstd::set_lib::lemma_int_range(0, m as int);
        assert(taken.to_set().subset_of(vstd::set_lib::set_int_range(0, m as int)));
        vstd::set_lib::lemma_len_subset(
            taken.to_set(),
            vstd::set_lib::set_int_range(0, m as int),
        );
    }
}

fn put_ascending(offs: &mut Vec<u32>, x: u32)
    requires
        strictly_ascending(old(offs)@),
    ensures
        final(offs)@ == insert_ascending(old(offs)@, x),
        strictly_ascending(final(offs)@),
{
    let ghost start = offs@;
    proof {
        lemma_insert_ascending(start, x);
    }
    let mut i: usize = offs.len();
    let ghost mut tail: Seq<u32> = Seq::empty();
    assert(start.take(i as int) =~= start);
    assert(insert_ascending(start, x) + tail =~= insert_ascending(start, x));
    assert(start.take(i as int) + tail =~= start);
    while i > 0 && offs[i - 1] > x
        invariant
            i <= offs.len(),
            offs@ == start,
            start.take(i as int) + tail == start,
            insert_ascending(start.take(i as int), x) + tail == insert_ascending(start, x),
        decreases i,
    {
        proof {
            let cur = start.take(i as int);
            assert(cur.drop_last() =~= start.take(i - 1));
            assert(insert_ascending(cur.drop_last(), x).push(cur.last()) + tail
                =~= insert_ascending(start.take(i - 1), x) + (seq![cur.last()] + tail));
            assert(start.take(i - 1) + (seq![cur.last()] + tail) =~= start.take(i as int) + tail);
            tail = seq![cur.last()] + tail;
        }
        i -= 1;
    }
    if i > 0 && offs[i - 1] == x {
        assert(start.take(i as int).last() == x);
        return ;
    }
    proof {
        let cur = start.take(i as int);
        assert(insert_ascending(cur, x) == cur.push(x));
        assert(cur.push(x) + tail =~= start.insert(i as int, x));
    }
    offs.insert(i, x);
}

fn starting_frames(ns: &Vec<Note>) -> (r: Vec<u32>)
    ensures
        r@ == offsets_of(ns@),
        strictly_ascending(r@),
{
    let mut offs: Vec<u32> = Vec::new();
    let mut i: usize = 0;
    assert(ns@.take(0) =~= Seq::<Note>::empty());
    while i < ns.len()
        invariant
            i <= ns.len(),
            offs@ == offsets_of(ns@.take(i as int)),
            strictly_ascending(offs@),
        decreases ns.len() - i,
    {
        assert(ns@.take(i + 1).drop_last() =~= ns@.take(i as int));
        put_ascending(&mut offs, ns[i].sample_offset_frames);
        i += 1;
    }
    assert(ns@.take(i as int) =~= ns@);
    offs
}

/// The voices of the notes of a sample, given in the order of their starts.
pub fn assign_voices(ns: &Vec<Note>) -> (r: Vec<usize>)
    requires
        forall|i: int| 0 <= i < ns.len() ==> (#[trigger] ns[i]).start.wf(),
    ensures
        r.len() == ns.len(),
        forall|i: int| 0 <= i < ns.len() ==> #[trigger] r[i] == voice_of(ns@, i),
{
    let offs: Vec<u32> = starting_frames(ns);
    let ghost all = ns@;
    let mut voices: Vec<usize> = Vec::new();
    let mut z: usize = 0;
    while z < ns.len()
        invariant
            z <= ns.len(),
            voices.len() == z,
        decreases ns.len() - z,
    {
        voices.push(0);
        z += 1;
    }
    let mut next_voice: usize = 0;
    let mut g: usize = 0;
    while g < offs.len()
        invariant
            all == ns@,
            g <= offs.len(),
            offs@ == offsets_of(all),
            strictly_ascending(offs@),
            voices.len() == ns.len(),
            forall|i: int| 0 <= i < ns.len() ==> (#[trigger] ns[i]).start.wf(),
            next_voice == voices_sum(all, offs@.take(g as int)),
            forall|i: int, h: int|
                0 <= i < ns.len() && 0 <= h < g && (#[trigger] ns[i]).sample_offset_frames
                    == #[trigger] offs[h] ==> voices[i] == voice_of(all, i),
        decreases offs.len() - g,
    {
        let offset: u32 = offs[g];
        let mut last: Vec<usize> = Vec::new();
        let mut k: usize = 0;
        let ghost before = voices@;
        while k < ns.len()
            invariant
                all == ns@,
                k <= ns.len(),
                g < offs.len(),
                offset == offs[g as int],
                offs@ == offsets_of(all),
                strictly_ascending(offs@),
                voices.len() == ns.len(),
                before.len() == ns.len(),
                forall|i: int| 0 <= i < ns.len() ==> (#[trigger] ns[i]).start.wf(),
                next_voice == voices_sum(all, offs@.take(g as int)),
                last@.map_values(|x: usize| x as int) == lasts(all, offset, k as int),
                forall|v: int| 0 <= v < last.len() ==> #[trigger] last[v] < k,
                forall|i: int|
                    0 <= i < ns.len() ==> #[trigger] voices[i] == (if i < k
                        && ns[i].sample_offset_frames == offset {
                        voice_of(all, i)
                    } else {
                        before[i] as int
                    }),
            decreases ns.len() - k,
        {
            let n: Note = ns[k];
            let ghost p = lasts(all, offset, k as int);
            if n.sample_offset_frames == offset {
                let mut v: usize = 0;
                proof {
                    lemma_voice_parts(all, k as int, g as int);
                }
                while v < last.len() && !has_ended(&ns[last[v]], &n.start)
                    invariant
                        all == ns@,
                        v <= last.len(),
                        n == ns[k as int],
                        n.start.wf(),
                        k < ns.len(),
                        p == last@.map_values(|x: usize| x as int),
                        forall|u: int| 0 <= u < last.len() ==> #[trigger] last[u] < k,
                        first_free(all, p, n.start, v as int) == first_free(all, p, n.start, 0),
                    decreases last.len() - v,
                {
                    assert(p[v as int] == last[v as int]);
                    v += 1;
                }
                proof {
                    if v < last.len() {
                        assert(p[v as int] == last[v as int]);
                    }
                    assert(v == local_voice(all, k as int));
                }
                voices[k] = next_voice + v;
                if v < last.len() {
                    last[v] = k;
                } else {
                    last.push(k);
                }
            }
            assert(last@.map_values(|x: usize| x as int) =~= lasts(all, offset, k + 1));
            k += 1;
        }
        proof {
            let t = offs@.take(g + 1);
            assert(t.drop_last() =~= offs@.take(g as int));
            assert(t.last() == offset);
            assert(last.len() == group_voices(all, offset));
            assert(strictly_ascending(t));
            lemma_voices_sum(all, t);
            lemma_sizes_bound(all, t);
            assert forall|i: int, h: int|
                0 <= i < ns.len() && 0 <= h < g + 1 && (#[trigger] ns[i]).sample_offset_frames
                    == #[trigger] offs[h] implies voices[i] == voice_of(all, i) by {
                if h < g {
                    assert(offs[h] < offs[g as int]);
                }
            }
        }
        next_voice = next_voice + last.len();
        g += 1;
    }
    proof {
        lemma_offsets(all);
        assert forall|i: int| 0 <= i < ns.len() implies #[trigger] voices[i] == voice_of(
            all,
            i,
        ) by {
            assert(offs@.contains(all[i].sample_offset_frames));
            let h = choose|h: int| 0 <= h < offs.len() && offs[h] == all[i].sample_offset_frames;
            assert(ns[i].sample_offset_frames == offs[h]);
        }
    }
    voices
}

/// For each note, when the next one on its voice starts.
pub fn following_starts(ns: &Vec<Note>, voices: &Vec<usize>) -> (r: Vec<Option<Moment>>)
    requires
        voices.len() == ns.len(),
        forall|i: int| 0 <= i < ns.len() ==> #[trigger] voices[i] == voice_of(ns@, i),
    ensures
        r.len() == ns.len(),
        forall|i: int| 0 <= i < ns.len() ==> #[trigger] r[i] == next_start(ns@, i),
{
    let mut out: Vec<Option<Moment>> = Vec::new();
    let mut i: usize = 0;
    while i < ns.len()
        invariant
            i <= ns.len(),
            out.len() == i,
            voices.len() == ns.len(),
            forall|a: int| 0 <= a < ns.len() ==> #[trigger] voices[a] == voice_of(ns@, a),
            forall|a: int| 0 <= a < i ==> #[trigger] out[a] == next_start(ns@, a),
        decreases ns.len() - i,
    {
        let v: usize = voices[i];
        let mut j: usize = i + 1;
        while j < ns.len() && voices[j] != v
            invariant
                i < j <= ns.len(),
                voices.len() == ns.len(),
                forall|a: int| 0 <= a < ns.len() ==> #[trigger] voices[a] == voice_of(ns@, a),
                next_on_voice(ns@, v as int, i + 1) == next_on_voice(ns@, v as int, j as int),
            decreases ns.len() - j,
        {
            assert(voices[j as int] == voice_of(ns@, j as int));
            j += 1;
        }
        if j < ns.len() {
            assert(voices[j as int] == voice_of(ns@, j as int));
            out.push(Some(ns[j].start));
        } else {
            out.push(None);
        }
        i += 1;
    }
    out
}

} // verus!
