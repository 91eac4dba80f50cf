//! Minimal Standard MIDI File (format 1) writer: just enough for meta events, note on and off,
//! pitch bend and control change.
use vstd::prelude::*;

verus! {

/// An event of a track: when it comes, in ticks since the start, and its bytes without the
/// delta time.
pub type EventView = (u32, Seq<u8>);

/// A track: its events, in the order in which they were added.
#[derive(Debug)]
pub struct Track {
    events: Vec<(u32, Vec<u8>)>,
}

/// What the events hold.
pub open spec fn event_views(events: Seq<(u32, Vec<u8>)>) -> Seq<EventView> {
    events.map_values(|e: (u32, Vec<u8>)| (e.0, e.1@))
}

impl View for Track {
    type V = Seq<EventView>;

    closed spec fn view(&self) -> Seq<EventView> {
        event_views(self.events@)
    }
}

/// A MIDI file.
#[derive(Debug)]
pub struct MidiFile {
    pub ticks_per_beat: u16,
    pub tracks: Vec<Track>,
}

/// What the tracks hold.
pub open spec fn track_views(tracks: Seq<Track>) -> Seq<Seq<EventView>> {
    tracks.map_values(|t: Track| t@)
}

/// The leading bytes of a number: seven bits each, the highest first, each marked as having
/// another behind it. None for zero.
pub open spec fn vlq_lead(value: int) -> Seq<u8>
    decreases value,
{
    if value <= 0 {
        Seq::empty()
    } else {
        vlq_lead(value / 128).push((128 + value % 128) as u8)
    }
}

/// A number as a variable-length quantity: seven bits a byte, all but the last byte marked.
pub open spec fn vlq(value: int) -> Seq<u8> {
    vlq_lead(value / 128).push((value % 128) as u8)
}

/// Reads a variable-length quantity: its value, and what stands behind it.
pub open spec fn read_vlq(bytes: Seq<u8>, so_far: int) -> Option<(int, Seq<u8>)>
    decreases bytes.len(),
{
    if bytes.len() == 0 {
        None
    } else if bytes[0] < 128 {
        Some((so_far * 128 + bytes[0], bytes.drop_first()))
    } else {
        read_vlq(bytes.drop_first(), so_far * 128 + (bytes[0] - 128))
    }
}

proof fn lemma_reads_lead(value: int, rest: Seq<u8>)
    requires
        0 <= value,
    ensures
        read_vlq(vlq_lead(value) + rest, 0) == read_vlq(rest, value),
    decreases value,
{
    if value == 0 {
        assert(vlq_lead(value) + rest =~= rest);
    } else {
        let b = (128 + value % 128) as u8;
        let tail = seq![b] + rest;
        lemma_reads_lead(value / 128, tail);
        assert(vlq_lead(value) + rest =~= vlq_lead(value / 128) + tail);
        assert(tail.drop_first() =~= rest);
        assert(tail[0] == b);
    }
}

/// A written quantity is read back, whatever stands behind it.
pub proof fn law_vlq_reads_back(value: int, rest: Seq<u8>)
    requires
        0 <= value,
    ensures
        read_vlq(vlq(value) + rest, 0) == Some((value, rest)),
{
    let b = (value % 128) as u8;
    let tail = seq![b] + rest;
    lemma_reads_lead(value / 128, tail);
    assert(vlq(value) + rest =~= vlq_lead(value / 128) + tail);
    assert(tail.drop_first() =~= rest);
}

fn put(out: &mut Vec<u8>, bytes: &[u8])
    ensures
        final(out)@ == old(out)@ + bytes@,
{
    let ghost start = out@;
    let n: usize = bytes.len();
    let mut i: usize = 0;
    assert(start + bytes@.take(0) =~= start);
    while i < n
        invariant
            i <= n,
            n == bytes@.len(),
            out@ == start + bytes@.take(i as int),
        decreases n - i,
    {
        out.push(bytes[i]);
        i += 1;
        assert(out@ =~= start + bytes@.take(i as int));
    }
    assert(bytes@.take(n as int) =~= bytes@);
}

fn write_lead(out: &mut Vec<u8>, value: u32)
    ensures
        final(out)@ == old(out)@ + vlq_lead(value as int),
    decreases value,
{
    let ghost start = out@;
    if value > 0 {
        write_lead(out, value / 128);
        out.push((128 + value % 128) as u8);
    }
    assert(out@ =~= start + vlq_lead(value as int));
}

fn write_vlq(out: &mut Vec<u8>, value: u32)
    ensures
        final(out)@ == old(out)@ + vlq(value as int),
{
    let ghost start = out@;
    write_lead(out, value / 128);
    out.push((value % 128) as u8);
    assert(out@ =~= start + vlq(value as int));
}

/// The bytes of a number, the highest first.
pub open spec fn be32_bytes(n: u32) -> Seq<u8> {
    seq![
        (n / 0x100_0000) as u8,
        (n / 0x1_0000 % 256) as u8,
        (n / 0x100 % 256) as u8,
        (n % 256) as u8,
    ]
}

/// The bytes of a number, the highest first.
pub open spec fn be16_bytes(n: u16) -> Seq<u8> {
    seq![(n / 256) as u8, (n % 256) as u8]
}

fn put_be32(out: &mut Vec<u8>, n: u32)
    ensures
        final(out)@ == old(out)@ + be32_bytes(n),
{
    let ghost start = out@;
    out.push((n / 0x100_0000) as u8);
    out.push((n / 0x1_0000 % 256) as u8);
    out.push((n / 0x100 % 256) as u8);
    out.push((n % 256) as u8);
    assert(out@ =~= start + be32_bytes(n));
}

fn put_be16(out: &mut Vec<u8>, n: u16)
    ensures
        final(out)@ == old(out)@ + be16_bytes(n),
{
    let ghost start = out@;
    out.push((n / 256) as u8);
    out.push((n % 256) as u8);
    assert(out@ =~= start + be16_bytes(n));
}

/// The event that names its track.
pub open spec fn name_event(name: Seq<char>) -> EventView {
    let text = vstd::utf8::encode_utf8(name);
    (0, seq![0xFFu8, 0x03u8] + vlq(text.len() as u32 as int) + text)
}

/// The event that sets the tempo.
pub open spec fn tempo_event(tick: u32, microseconds_per_beat: u32) -> EventView {
    (
        tick,
        seq![
            0xFFu8,
            0x51u8,
            0x03u8,
            (microseconds_per_beat / 0x1_0000 % 256) as u8,
            (microseconds_per_beat / 0x100 % 256) as u8,
            (microseconds_per_beat % 256) as u8,
        ],
    )
}

/// A channel event with two data bytes of seven bits each.
pub open spec fn channel_event(tick: u32, kind: u8, channel: u8, a: u8, b: u8) -> EventView {
    (tick, seq![(kind + channel % 16) as u8, (a % 128) as u8, (b % 128) as u8])
}

/// The event that bends the pitch: 14 bits around 8192, the low seven first.
pub open spec fn wheel_event(tick: u32, channel: u8, pitch: i16) -> EventView {
    let value = (pitch + 8192) % 16384;
    (tick, seq![(0xE0 + channel % 16) as u8, (value % 128) as u8, (value / 128) as u8])
}

/// An event put behind those that do not come after it.
pub open spec fn insert_event(events: Seq<EventView>, e: EventView) -> Seq<EventView>
    decreases events.len(),
{
    if events.len() == 0 || events.last().0 <= e.0 {
        events.push(e)
    } else {
        insert_event(events.drop_last(), e).push(events.last())
    }
}

/// The events in the order in which they come; those that come together keep their order.
pub open spec fn in_tick_order(events: Seq<EventView>) -> Seq<EventView>
    decreases events.len(),
{
    if events.len() == 0 {
        Seq::empty()
    } else {
        insert_event(in_tick_order(events.drop_last()), events.last())
    }
}

proof fn lemma_insert_event(events: Seq<EventView>, e: EventView)
    requires
        forall|i: int, j: int|
            0 <= i < j < events.len() ==> (#[trigger] events[i]).0 <= (#[trigger] events[j]).0,
    ensures
        insert_event(events, e).len() == events.len() + 1,
        insert_event(events, e).to_multiset() == events.to_multiset().insert(e),
        forall|i: int, j: int|
            0 <= i < j < insert_event(events, e).len() ==> (#[trigger] insert_event(
                events,
                e,
            )[i]).0 <= (#[trigger] insert_event(events, e)[j]).0,
        forall|i: int|
            0 <= i < insert_event(events, e).len() ==> (#[trigger] insert_event(events, e)[i]).0
                <= e.0 || (events.len() > 0 && insert_event(events, e)[i].0 <= events.last().0),
    decreases events.len(),
{
    broadcast use vstd::seq_lib::group_to_multiset_ensures;

    let r = insert_event(events, e);
    if events.len() == 0 || events.last().0 <= e.0 {
        assert forall|i: int, j: int| 0 <= i < j < r.len() implies (#[trigger] r[i]).0 <= (
        #[trigger] r[j]).0 by {
            if j == events.len() && i < events.len() - 1 {
                assert(events[i].0 <= events[events.len() - 1].0);
            }
        }
        assert forall|i: int| 0 <= i < r.len() implies (#[trigger] r[i]).0 <= e.0 by {
            if i < events.len() - 1 {
                assert(events[i].0 <= events[events.len() - 1].0);
            }
        }
    } else {
        let d = events.drop_last();
        lemma_insert_event(d, e);
        let p = insert_event(d, e);
        assert(events =~= d.push(events.last()));
        assert(r.to_multiset() =~= events.to_multiset().insert(e));
        assert forall|i: int, j: int| 0 <= i < j < r.len() implies (#[trigger] r[i]).0 <= (
        #[trigger] r[j]).0 by {
            if j == p.len() {
                assert(r[i] == p[i]);
                if d.len() > 0 {
                    assert(events[d.len() - 1].0 <= events[events.len() - 1].0);
                }
            } else {
                assert(r[i] == p[i] && r[j] == p[j]);
            }
        }
        assert forall|i: int| 0 <= i < r.len() implies (#[trigger] r[i]).0 <= events.last().0 by {
            if i < p.len() {
                assert(r[i] == p[i]);
                if d.len() > 0 {
                    assert(events[d.len() - 1].0 <= events[events.len() - 1].0);
                }
            }
        }
    }
}

/// A track is written in the order of time, whatever the order in which its events were
/// added, and none is lost.
pub proof fn law_written_in_tick_order(events: Seq<EventView>)
    ensures
        in_tick_order(events).len() == events.len(),
        in_tick_order(events).to_multiset() == events.to_multiset(),
        forall|i: int, j: int|
            0 <= i < j < events.len() ==> (#[trigger] in_tick_order(events)[i]).0 <= (
            #[trigger] in_tick_order(events)[j]).0,
    decreases events.len(),
{
    broadcast use vstd::seq_lib::group_to_multiset_ensures;

    if events.len() > 0 {
        let d = events.drop_last();
        law_written_in_tick_order(d);
        lemma_insert_event(in_tick_order(d), events.last());
        assert(events =~= d.push(events.last()));
    }
}

/// The status byte that need not be repeated behind the events.
pub open spec fn running_status(events: Seq<EventView>) -> Option<u8> {
    if events.len() > 0 && events.last().1[0] < 0xF0 {
        Some(events.last().1[0])
    } else {
        None
    }
}

/// The bytes of an event behind others: a status byte that repeats is left out.
pub open spec fn event_bytes(before: Seq<EventView>, e: EventView) -> Seq<u8> {
    let bytes = if e.1[0] < 0xF0 && running_status(before) == Some(e.1[0]) {
        e.1.drop_first()
    } else {
        e.1
    };
    let last = if before.len() == 0 {
        0int
    } else {
        before.last().0 as int
    };
    vlq(e.0 - last) + bytes
}

/// The bytes of events that stand in the order of time.
pub open spec fn body_of(events: Seq<EventView>) -> Seq<u8>
    decreases events.len(),
{
    if events.len() == 0 {
        Seq::empty()
    } else {
        body_of(events.drop_last()) + event_bytes(events.drop_last(), events.last())
    }
}

/// The chunk of a track: its tag, its length, its events and the end-of-track event.
pub open spec fn track_chunk(events: Seq<EventView>) -> Seq<u8> {
    let body = body_of(in_tick_order(events)) + seq![0u8, 0xFFu8, 0x2Fu8, 0u8];
    seq![0x4Du8, 0x54u8, 0x72u8, 0x6Bu8] + be32_bytes(body.len() as u32) + body
}

/// The chunks of the first tracks.
pub open spec fn track_chunks(tracks: Seq<Seq<EventView>>) -> Seq<u8>
    decreases tracks.len(),
{
    if tracks.len() == 0 {
        Seq::empty()
    } else {
        track_chunks(tracks.drop_last()) + track_chunk(tracks.last())
    }
}

/// A whole file of format 1.
pub open spec fn file_of(ticks_per_beat: u16, tracks: Seq<Seq<EventView>>) -> Seq<u8> {
    seq![0x4Du8, 0x54u8, 0x68u8, 0x64u8] + be32_bytes(6) + be16_bytes(1) + be16_bytes(
        tracks.len() as u16,
    ) + be16_bytes(ticks_per_beat) + track_chunks(tracks)
}

/// Every event has a status byte.
pub open spec fn has_status(events: Seq<EventView>) -> bool {
    forall|i: int| 0 <= i < events.len() ==> (#[trigger] events[i]).1.len() > 0
}

impl Default for Track {
    fn default() -> (r: Self)
        ensures
            r@ == Seq::<EventView>::empty(),
    {
        let events: Vec<(u32, Vec<u8>)> = Vec::new();
        assert(event_views(events@) =~= Seq::<EventView>::empty());
        Track { events }
    }
}

impl Track {
    /// Adds an event.
    pub fn push(&mut self, abs_tick: u32, bytes: Vec<u8>)
        ensures
            final(self)@ == old(self)@.push((abs_tick, bytes@)),
    {
        let ghost start = self.events@;
        self.events.push((abs_tick, bytes));
        assert(event_views(self.events@) =~= event_views(start).push((abs_tick, bytes@)));
    }

    /// Names the track.
    pub fn track_name(&mut self, name: &str)
        ensures
            final(self)@ == old(self)@.push(name_event(name@)),
    {
        let text: &[u8] = name.as_bytes();
        let mut bytes: Vec<u8> = Vec::new();
        bytes.push(0xFF);
        bytes.push(0x03);
        let n: usize = text.len();
        write_vlq(&mut bytes, n as u32);
        put(&mut bytes, text);
        assert(bytes@ =~= name_event(name@).1);
        self.push(0, bytes);
    }

    /// Sets the tempo.
    pub fn set_tempo(&mut self, abs_tick: u32, microseconds_per_beat: u32)
        ensures
            final(self)@ == old(self)@.push(tempo_event(abs_tick, microseconds_per_beat)),
    {
        let mut bytes: Vec<u8> = Vec::new();
        bytes.push(0xFF);
        bytes.push(0x51);
        bytes.push(0x03);
        bytes.push((microseconds_per_beat / 0x1_0000 % 256) as u8);
        bytes.push((microseconds_per_beat / 0x100 % 256) as u8);
        bytes.push((microseconds_per_beat % 256) as u8);
        assert(bytes@ =~= tempo_event(abs_tick, microseconds_per_beat).1);
        self.push(abs_tick, bytes);
    }

    fn channel_voice(&mut self, abs_tick: u32, kind: u8, channel: u8, a: u8, b: u8)
        requires
            kind <= 0xE0,
        ensures
            final(self)@ == old(self)@.push(channel_event(abs_tick, kind, channel, a, b)),
    {
        let mut bytes: Vec<u8> = Vec::new();
        bytes.push(kind + channel % 16);
        bytes.push(a % 128);
        bytes.push(b % 128);
        assert(bytes@ =~= channel_event(abs_tick, kind, channel, a, b).1);
        self.push(abs_tick, bytes);
    }

    /// Starts a note.
    pub fn note_on(&mut self, abs_tick: u32, channel: u8, note: u8, velocity: u8)
        ensures
            final(self)@ == old(self)@.push(
                channel_event(abs_tick, 0x90, channel, note, velocity),
            ),
    {
        self.channel_voice(abs_tick, 0x90, channel, note, velocity);
    }

    /// Ends a note.
    pub fn note_off(&mut self, abs_tick: u32, channel: u8, note: u8, velocity: u8)
        ensures
            final(self)@ == old(self)@.push(
                channel_event(abs_tick, 0x80, channel, note, velocity),
            ),
    {
        self.channel_voice(abs_tick, 0x80, channel, note, velocity);
    }

    /// Sets a controller.
    pub fn control_change(&mut self, abs_tick: u32, channel: u8, controller: u8, value: u8)
        ensures
            final(self)@ == old(self)@.push(
                channel_event(abs_tick, 0xB0, channel, controller, value),
            ),
    {
        self.channel_voice(abs_tick, 0xB0, channel, controller, value);
    }

    /// Bends the pitch: -8192 to 8191 around 0.
    pub fn pitchwheel(&mut self, abs_tick: u32, channel: u8, pitch: i16)
        ensures
            final(self)@ == old(self)@.push(wheel_event(abs_tick, channel, pitch)),
    {
        let value: u32 = (pitch as i32 + 73728) as u32 % 16384;
        let mut bytes: Vec<u8> = Vec::new();
        bytes.push(0xE0 + channel % 16);
        bytes.push((value % 128) as u8);
        bytes.push((value / 128) as u8);
        assert(bytes@ =~= wheel_event(abs_tick, channel, pitch).1);
        self.push(abs_tick, bytes);
    }

    /// The numbers of the events, in the order in which they come.
    fn tick_order(&self) -> (r: Vec<usize>)
        ensures
            forall|i: int| 0 <= i < r.len() ==> #[trigger] r[i] < self@.len(),
            r@.map_values(|k: usize| self@[k as int]) == in_tick_order(self@),
    {
        let ghost events = self@;
        let ghost pick = |k: usize| events[k as int];
        let mut order: Vec<usize> = Vec::new();
        let mut k: usize = 0;
        assert(events.take(0) =~= Seq::<EventView>::empty());
        assert(order@.map_values(pick) =~= Seq::<EventView>::empty());
        while k < self.events.len()
            invariant
                k <= self.events.len(),
                events == event_views(self.events@),
                pick == (|k: usize| events[k as int]),
                forall|i: int| 0 <= i < order.len() ==> #[trigger] order[i] < k,
                order@.map_values(pick) == in_tick_order(events.take(k as int)),
            decreases self.events.len() - k,
        {
            let ghost start = order@.map_values(pick);
            let ghost e = events[k as int];
            let tick: u32 = self.events[k].0;
            let mut i: usize = order.len();
            let ghost mut tail: Seq<EventView> = Seq::empty();
            assert(start.take(i as int) =~= start);
            assert(insert_event(start, e) + tail =~= insert_event(start, e));
            assert(start.take(i as int) + tail =~= start);
            while i > 0 && self.events[order[i - 1]].0 > tick
                invariant
                    i <= order.len(),
                    k < self.events.len(),
                    events == event_views(self.events@),
                    pick == (|k: usize| events[k as int]),
                    e == events[k as int],
                    tick == e.0,
                    forall|j: int| 0 <= j < order.len() ==> #[trigger] order[j] < k,
                    start == order@.map_values(pick),
                    start.take(i as int) + tail == start,
                    insert_event(start.take(i as int), e) + tail == insert_event(start, e),
                decreases i,
            {
                proof {
                    let cur = start.take(i as int);
                    assert(cur.last() == events[order[i - 1] as int]);
                    assert(cur.drop_last() =~= start.take(i - 1));
                    assert(insert_event(cur.drop_last(), e).push(cur.last()) + tail
                        =~= insert_event(start.take(i - 1), e) + (seq![cur.last()] + tail));
                    assert(start.take(i - 1) + (seq![cur.last()] + tail) =~= start.take(i as int)
                        + tail);
                    tail = seq![cur.last()] + tail;
                }
                i -= 1;
            }
            proof {
                let cur = start.take(i as int);
                if i > 0 {
                    assert(cur.last() == events[order[i - 1] as int]);
                }
                assert(insert_event(cur, e) == cur.push(e));
                assert(cur.push(e) + tail =~= start.insert(i as int, e));
                assert(order@.insert(i as int, k).map_values(pick) =~= start.insert(i as int, e));
                assert(events.take(k + 1).drop_last() =~= events.take(k as int));
                assert(events.take(k + 1).last() == e);
            }
            order.insert(i, k);
            k += 1;
        }
        assert(events.take(k as int) =~= events);
        order
    }

    /// The chunk of the track.
    fn chunk(&self) -> (r: Vec<u8>)
        requires
            has_status(self@),
        ensures
            r@ == track_chunk(self@),
    {
        let order: Vec<usize> = self.tick_order();
        let ghost pick = |k: usize| self@[k as int];
        let ghost sorted = in_tick_order(self@);
        proof {
            law_written_in_tick_order(self@);
            assert(sorted.len() == order.len());
        }
        let mut body: Vec<u8> = Vec::new();
        let mut last_tick: u32 = 0;
        let mut running: Option<u8> = None;
        let mut i: usize = 0;
        assert(sorted.take(0) =~= Seq::<EventView>::empty());
        while i < order.len()
            invariant
                i <= order.len(),
                sorted.len() == order.len(),
                forall|j: int| 0 <= j < order.len() ==> #[trigger] order[j] < self@.len(),
                pick == (|k: usize| self@[k as int]),
                sorted == order@.map_values(pick),
                forall|a: int, b: int|
                    0 <= a < b < sorted.len() ==> (#[trigger] sorted[a]).0 <= (
                    #[trigger] sorted[b]).0,
                self@ == event_views(self.events@),
                has_status(self@),
                body@ == body_of(sorted.take(i as int)),
                last_tick == (if i == 0 {
                    0
                } else {
                    sorted[i - 1].0
                }),
                running == running_status(sorted.take(i as int)),
            decreases order.len() - i,
        {
            let k: usize = order[i];
            let ghost e = sorted[i as int];
            let ghost before = sorted.take(i as int);
            proof {
                assert(e == self@[k as int]);
                assert(sorted.take(i + 1).drop_last() =~= before);
                assert(sorted.take(i + 1).last() == e);
                if i > 0 {
                    assert(sorted[i - 1].0 <= sorted[i as int].0);
                    assert(before.last() == sorted[i - 1]);
                }
            }
            let tick: u32 = self.events[k].0;
            let bytes: &Vec<u8> = &self.events[k].1;
            assert(bytes@ == e.1);
            let ghost start = body@;
            write_vlq(&mut body, tick - last_tick);
            let status: u8 = bytes[0];
            let repeats: bool = match running {
                Some(s) => status < 0xF0 && s == status,
                None => false,
            };
            if repeats {
                put(&mut body, vstd::slice::slice_subrange(bytes.as_slice(), 1, bytes.len()));
                assert(e.1.subrange(1, e.1.len() as int) =~= e.1.drop_first());
            } else {
                put(&mut body, bytes.as_slice());
                running = if status < 0xF0 {
                    Some(status)
                } else {
                    None
                };
            }
            assert(body@ =~= start + event_bytes(before, e));
            last_tick = tick;
            i += 1;
        }
        assert(sorted.take(i as int) =~= sorted);
        write_vlq(&mut body, 0);
        body.push(0xFF);
        body.push(0x2F);
        body.push(0x00);
        proof {
            assert(vlq(0) =~= seq![0u8]);
            assert(body@ =~= body_of(sorted) + seq![0u8, 0xFFu8, 0x2Fu8, 0u8]);
        }
        let mut out: Vec<u8> = Vec::new();
        out.push(0x4D);
        out.push(0x54);
        out.push(0x72);
        out.push(0x6B);
        assert(out@ =~= seq![0x4Du8, 0x54u8, 0x72u8, 0x6Bu8]);
        let n: usize = body.len();
        put_be32(&mut out, n as u32);
        put(&mut out, body.as_slice());
        out
    }
}

impl MidiFile {
    /// A file without tracks.
    pub fn new(ticks_per_beat: u16) -> (r: Self)
        ensures
            r.ticks_per_beat == ticks_per_beat,
            r.tracks@ == Seq::<Track>::empty(),
    {
        MidiFile { ticks_per_beat, tracks: Vec::new() }
    }

    /// The bytes of the file.
    pub fn to_bytes(&self) -> (r: Vec<u8>)
        requires
            forall|i: int|
                0 <= i < self.tracks.len() ==> has_status((#[trigger] self.tracks[i])@),
        ensures
            r@ == file_of(self.ticks_per_beat, track_views(self.tracks@)),
    {
        let mut out: Vec<u8> = Vec::new();
        out.push(0x4D);
        out.push(0x54);
        out.push(0x68);
        out.push(0x64);
        assert(out@ =~= seq![0x4Du8, 0x54u8, 0x68u8, 0x64u8]);
        put_be32(&mut out, 6);
        put_be16(&mut out, 1);
        let n: usize = self.tracks.len();
        put_be16(&mut out, n as u16);
        put_be16(&mut out, self.ticks_per_beat);
        let ghost head = out@;
        let ghost views = track_views(self.tracks@);
        let mut i: usize = 0;
        assert(views.take(0) =~= Seq::<Seq<EventView>>::empty());
        assert(head + track_chunks(views.take(0)) =~= head);
        while i < n
            invariant
                i <= n,
                n == self.tracks.len(),
                views == track_views(self.tracks@),
                forall|i: int|
                    0 <= i < self.tracks.len() ==> has_status((#[trigger] self.tracks[i])@),
                out@ == head + track_chunks(views.take(i as int)),
            decreases n - i,
        {
            assert(has_status(self.tracks[i as int]@));
            let chunk: Vec<u8> = self.tracks[i].chunk();
            proof {
                assert(views.take(i + 1).drop_last() =~= views.take(i as int));
                assert(views.take(i + 1).last() == self.tracks[i as int]@);
                assert((head + track_chunks(views.take(i as int))) + chunk@ =~= head + (
                track_chunks(views.take(i as int)) + chunk@));
            }
            put(&mut out, chunk.as_slice());
            i += 1;
        }
        assert(views.take(n as int) =~= views);
        out
    }
}

} // verus!
