//! What stands in a set's clips, envelopes and tempo.
use crate::export::als::{tempo_points, tempo_text};
use crate::export::automation::{envelope_of, mark_events, number_text, without_zeros, Mark};
use crate::export::clip::{key_track, note_nodes, notes_at, ClippedNote};
use crate::export::clock::{law_nearest_is_near, nearest};
use crate::export::ids::{after, is_number, law_decimal_reads_back, number};
use crate::export::tempo::{Tempo, TempoChange};
use crate::text::{decimal, lemma_digits_len, zero_padded};
use crate::xmlutil::NodeView;
use vstd::prelude::*;

verus! {

pub open spec fn ten_to(n: nat) -> int
    decreases n,
{
    if n == 0 {
        1
    } else {
        10 * ten_to((n - 1) as nat)
    }
}

proof fn lemma_without_zeros(s: Seq<char>)
    requires
        forall|i: int| 0 <= i < s.len() ==> '0' <= #[trigger] s[i] && s[i] <= '9',
    ensures
        ({
            let t = without_zeros(s);
            &&& t.len() <= s.len()
            &&& number(s) == number(t) * ten_to((s.len() - t.len()) as nat)
            &&& t.len() > 0 ==> t.last() != '0'
            &&& forall|i: int| 0 <= i < t.len() ==> '0' <= #[trigger] t[i] && t[i] <= '9'
        }),
    decreases s.len(),
{
    let t = without_zeros(s);
    if s.len() > 0 && s.last() == '0' {
        let r = s.drop_last();
        assert forall|i: int| 0 <= i < r.len() implies '0' <= #[trigger] r[i] && r[i] <= '9' by {
            assert(r[i] == s[i]);
        }
        lemma_without_zeros(r);
        let n = (r.len() - t.len()) as nat;
        assert(ten_to(n + 1) == 10 * ten_to(n));
        assert(10 * (number(t) * ten_to(n)) == number(t) * (10 * ten_to(n))) by (nonlinear_arith);
    } else {
        assert(ten_to(0) == 1);
    }
}

proof fn lemma_padding(s: Seq<char>, k: nat)
    requires
        is_number(s),
    ensures
        number(Seq::new(k, |i: int| '0') + s) == number(s),
        is_number(Seq::new(k, |i: int| '0') + s),
    decreases s.len(),
{
    let zeros = Seq::new(k, |i: int| '0');
    let t = zeros + s;
    assert(t.drop_last() =~= zeros + s.drop_last());
    assert(t.last() == s.last());
    assert forall|i: int| 0 <= i < t.len() implies '0' <= #[trigger] t[i] && t[i] <= '9' by {
        if i >= k {
            assert(t[i] == s[i - k]);
        }
    }
    if s.len() == 1 {
        assert(zeros + s.drop_last() =~= zeros);
        lemma_zeros(k);
        assert(number(s.drop_last()) == 0);
    } else {
        let r = s.drop_last();
        assert forall|i: int| 0 <= i < r.len() implies '0' <= #[trigger] r[i] && r[i] <= '9' by {
            assert(r[i] == s[i]);
        }
        lemma_padding(r, k);
    }
}

proof fn lemma_zeros(k: nat)
    ensures
        number(Seq::new(k, |i: int| '0')) == 0,
    decreases k,
{
    let zeros = Seq::new(k, |i: int| '0');
    if k > 0 {
        lemma_zeros((k - 1) as nat);
        assert(zeros.drop_last() =~= Seq::new((k - 1) as nat, |i: int| '0'));
    }
}

proof fn lemma_few_digits(n: int, k: nat)
    requires
        0 <= n < ten_to(k),
        k > 0,
    ensures
        decimal(n).len() <= k,
    decreases k,
{
    lemma_digits_len(n, 10, false);
    if n >= 10 {
        assert(ten_to(k) == 10 * ten_to((k - 1) as nat));
        if k == 1 {
            assert(ten_to(0) == 1);
        }
        lemma_few_digits(n / 10, (k - 1) as nat);
        assert(decimal(n) == decimal(n / 10).push(crate::text::digit(n % 10, false)));
    }
}

/// A text is a number of millionths: a sign where it is below zero, its whole part, and behind a
/// point up to six digits, the last of which is not zero, where there is more.
pub open spec fn is_millionths(text: Seq<char>, micros: int, digits: Seq<char>) -> bool {
    let size = if micros < 0 {
        -micros
    } else {
        micros
    };
    let sign = if micros < 0 {
        seq!['-']
    } else {
        Seq::empty()
    };
    let whole = decimal(size / 1_000_000);
    &&& is_number(whole) && number(whole) == size / 1_000_000
    &&& digits.len() <= 6
    &&& number(digits) * ten_to((6 - digits.len()) as nat) == size % 1_000_000
    &&& digits.len() == 0 <==> size % 1_000_000 == 0
    &&& digits.len() > 0 ==> digits.last() != '0'
    &&& digits.len() == 0 ==> text == sign + whole
    &&& digits.len() > 0 ==> is_number(digits) && text == sign + whole + seq!['.'] + digits
}

/// Numbers are written so that they are read back.
pub proof fn law_numbers_are_read_back(micros: int)
    ensures
        exists|digits: Seq<char>| #[trigger] is_millionths(number_text(micros), micros, digits),
{
    reveal_strlit("-");
    reveal_strlit(".");
    let size = if micros < 0 {
        -micros
    } else {
        micros
    };
    law_decimal_reads_back(size / 1_000_000);
    assert("-"@ =~= seq!['-']);
    assert("."@ =~= seq!['.']);
    let f = size % 1_000_000;
    if f == 0 {
        let digits = Seq::<char>::empty();
        assert(number(digits) == 0);
        assert(is_millionths(number_text(micros), micros, digits));
    } else {
        let d = decimal(f);
        law_decimal_reads_back(f);
        assert(ten_to(6) == 1_000_000) by {
            reveal_with_fuel(ten_to, 7);
        }
        lemma_few_digits(f, 6);
        let padded = zero_padded(d, 6);
        lemma_padding(d, (6 - d.len()) as nat);
        assert(padded =~= Seq::new((6 - d.len()) as nat, |i: int| '0') + d);
        lemma_without_zeros(padded);
        let digits = without_zeros(padded);
        if digits.len() == 0 {
            assert(number(digits) == 0);
        }
        assert(is_millionths(number_text(micros), micros, digits));
    }
}

/// The node of a note tells when it begins, how long it is and how hard it is struck.
pub open spec fn tells_note(node: NodeView, n: ClippedNote) -> bool {
    &&& node.is_named("MidiNoteEvent"@)
    &&& node.attribute("Time"@) == Some(number_text(n.start as int))
    &&& node.attribute("Duration"@) == Some(number_text(n.duration as int))
    &&& node.attribute("Velocity"@) == Some(decimal(n.velocity as int))
}

proof fn lemma_attribute_names()
    ensures
        "Time"@ != "Duration"@,
        "Time"@ != "Velocity"@,
        "Time"@ != "OffVelocity"@,
        "Time"@ != "NoteId"@,
        "Duration"@ != "Velocity"@,
        "Duration"@ != "OffVelocity"@,
        "Duration"@ != "NoteId"@,
        "Velocity"@ != "OffVelocity"@,
        "Velocity"@ != "NoteId"@,
        "Time"@ != "Value"@,
        "Id"@ != "Time"@,
        "Id"@ != "Value"@,
{
    reveal_strlit("Time");
    reveal_strlit("Duration");
    reveal_strlit("Velocity");
    reveal_strlit("OffVelocity");
    reveal_strlit("NoteId");
    reveal_strlit("Value");
    reveal_strlit("Id");
    assert("Duration"@[0] == 'D' && "Velocity"@[0] == 'V');
    assert("Time"@[0] == 'T' && "Value"@[0] == 'V');
}

proof fn lemma_note_nodes(notes: Seq<ClippedNote>, first: int, i: int)
    requires
        0 <= i < notes.len(),
    ensures
        note_nodes(notes, first).len() == notes.len(),
        tells_note(note_nodes(notes, first)[i], notes[i]),
    decreases notes.len(),
{
    lemma_attribute_names();
    if i < notes.len() - 1 {
        lemma_note_nodes(notes.drop_last(), first, i);
    } else if notes.len() > 1 {
        lemma_note_nodes(notes.drop_last(), first, 0);
    } else {
        assert(note_nodes(notes.drop_last(), first).len() == 0);
    }
}

/// The track of a key tells its notes in turn and, last, the key that they are played at.
pub proof fn law_keys_tell_their_notes(
    id: int,
    pitch: i32,
    notes: Seq<ClippedNote>,
    first: int,
    i: int,
)
    requires
        0 <= i < notes.len(),
    ensures
        ({
            let d = key_track(id, pitch, notes, first);
            &&& d.len() == notes.len() + 3
            &&& d[0].is_named("KeyTrack"@)
            &&& tells_note(d[2 + i], notes[i])
            &&& d.last().is_named("MidiKey"@)
            &&& d.last().attribute("Value"@) == Some(decimal(pitch as int))
        }),
{
    lemma_note_nodes(notes, first, i);
    let n = note_nodes(notes, first);
    assert(key_track(id, pitch, notes, first)[2 + i] == n[i]);
}

/// The notes of a key are those that have its pitch, in their order.
pub proof fn law_keys_have_their_notes(notes: Seq<ClippedNote>, pitch: i32)
    ensures
        notes_at(notes, pitch) == notes.filter(|n: ClippedNote| n.pitch == pitch),
    decreases notes.len(),
{
    reveal(Seq::filter);
    if notes.len() > 0 {
        law_keys_have_their_notes(notes.drop_last(), pitch);
    }
}

/// The node of a point of an envelope tells its time and its value.
pub open spec fn tells_mark(node: NodeView, m: Mark) -> bool {
    &&& node.is_named("FloatEvent"@)
    &&& node.attribute("Time"@) == Some(number_text(m.0 as int))
    &&& node.attribute("Value"@) == Some(number_text(m.1 as int))
}

proof fn lemma_mark_events(depth: usize, marks: Seq<Mark>, next: u64, i: int)
    requires
        0 <= i < marks.len(),
    ensures
        mark_events(depth, marks, next).len() == marks.len(),
        tells_mark(mark_events(depth, marks, next)[i], marks[i]),
    decreases marks.len(),
{
    lemma_attribute_names();
    if i < marks.len() - 1 {
        lemma_mark_events(depth, marks.drop_last(), next, i);
    } else if marks.len() > 1 {
        lemma_mark_events(depth, marks.drop_last(), next, 0);
    } else {
        assert(mark_events(depth, marks.drop_last(), next).len() == 0);
    }
}

/// An envelope drives what it points at: from before the song on by its resting value, and then
/// by its points in turn.
pub proof fn law_envelopes_tell_their_points(
    marks: Seq<Mark>,
    pointee: Seq<char>,
    baseline: i64,
    next: u64,
    i: int,
)
    requires
        0 <= i < marks.len(),
    ensures
        ({
            let d = envelope_of(marks, pointee, baseline, next);
            &&& d[0].is_named("AutomationEnvelope"@)
            &&& d[2].is_named("PointeeId"@)
            &&& d[2].attribute("Value"@) == Some(pointee)
            &&& d[5].is_named("FloatEvent"@)
            &&& d[5].attribute("Time"@) == Some("-63072000"@)
            &&& d[5].attribute("Value"@) == Some(number_text(baseline as int))
            &&& d.len() == marks.len() + 9
            &&& tells_mark(d[6 + i], marks[i])
        }),
{
    lemma_attribute_names();
    lemma_mark_events(3, marks, after(after(next)), i);
    let m = mark_events(3, marks, after(after(next)));
    assert(envelope_of(marks, pointee, baseline, next)[6 + i] == m[i]);
}

/// A tempo is written in beats to the minute: six ticks to the row play at the tracker's own
/// tempo, and twice as many play half as fast.
pub proof fn law_tempos_are_written(t: Tempo)
    requires
        t.speed > 0,
    ensures
        exists|m: int| #[trigger]
            number_text(m) == tempo_text(t) && -(t.speed as int) <= 2 * (t.speed * m - 6_000_000
                * t.tracker_bpm) <= t.speed,
{
    let num = 6_000_000 * t.tracker_bpm as int;
    law_nearest_is_near(num, t.speed as int);
    let m = nearest(num, t.speed as int);
    assert(2 * t.speed * m == 2 * (t.speed * m)) by (nonlinear_arith);
    assert(0 <= m <= num + 1) by (nonlinear_arith)
        requires
            2 * num - t.speed <= 2 * (t.speed * m) <= 2 * num + t.speed,
            t.speed > 0,
            num >= 0,
    ;
    assert(number_text(m) == tempo_text(t));
}

/// The tempo of a set is its first one from before the song on; each later one is stepped to at
/// its row, from the one before a thousandth of a beat earlier.
pub proof fn law_tempo_changes_are_stepped(changes: Seq<TempoChange>, c: TempoChange)
    requires
        changes.len() > 0,
    ensures
        tempo_points(seq![c]) == seq![
            ("-63072000"@, tempo_text(c.tempo)),
            ("0"@, tempo_text(c.tempo)),
        ],
        250_000 * c.row <= i64::MAX ==> tempo_points(changes.push(c)) == tempo_points(changes).push(
            (number_text(250_000 * c.row - 1000), tempo_text(changes.last().tempo)),
        ).push((number_text(250_000 * c.row as int), tempo_text(c.tempo))),
{
    let all = changes.push(c);
    assert(all.drop_last() =~= changes);
    assert(all[all.len() - 2] == changes.last());
}

} // verus!
