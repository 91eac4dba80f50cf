//! Automation curves of a Live set.
//!
//! Times and values are whole numbers of millionths: of a beat, or of the automated unit.
use crate::export::ids::{after, IdCounter};
use crate::text::{decimal, push_decimal, push_decimal_padded, zero_padded};
use crate::xmlutil::{
    attribute_map, follows_at, is_tree, no_scope, node_views, Content, ContentView, Doc, Document,
    Node, NodeView, Scope,
};
use vstd::prelude::*;

verus! {

/// The time that stands for "before the automation starts".
pub const AUTOMATION_SENTINEL_TIME: &'static str = "-63072000";

/// A thousandth of a beat, in millionths: a value is held until this long before a jump, so
/// that the line between two points does not become a ramp.
pub const STEP: i64 = 1000;

/// A number of millionths as far as it fits 64 bits.
pub open spec fn clamped(x: int) -> i64 {
    if x < i64::MIN {
        i64::MIN
    } else if x > i64::MAX {
        i64::MAX
    } else {
        x as i64
    }
}

/// A number of millionths as far as it fits 64 bits.
pub fn clamp64(x: i128) -> (r: i64)
    ensures
        r == clamped(x as int),
{
    if x < i64::MIN as i128 {
        i64::MIN
    } else if x > i64::MAX as i128 {
        i64::MAX
    } else {
        x as i64
    }
}

/// The text without the zeros at its end.
pub open spec fn without_zeros(s: Seq<char>) -> Seq<char>
    decreases s.len(),
{
    if s.len() > 0 && s.last() == '0' {
        without_zeros(s.drop_last())
    } else {
        s
    }
}

/// A number of millionths written out, with no more decimals than it needs.
pub open spec fn number_text(micros: int) -> Seq<char> {
    let size = if micros < 0 {
        -micros
    } else {
        micros
    };
    let sign = if micros < 0 {
        "-"@
    } else {
        Seq::empty()
    };
    let whole = sign + decimal(size / 1_000_000);
    if size % 1_000_000 == 0 {
        whole
    } else {
        whole + "."@ + without_zeros(zero_padded(decimal(size % 1_000_000), 6))
    }
}

proof fn lemma_padded_shift(n: int, width: int)
    requires
        0 < n,
        n % 10 == 0,
        width >= 1,
        decimal(n).len() <= width,
    ensures
        zero_padded(decimal(n), width).drop_last() =~= zero_padded(decimal(n / 10), width - 1),
        zero_padded(decimal(n), width).len() > 0,
        zero_padded(decimal(n), width).last() == '0',
        decimal(n / 10).len() == decimal(n).len() - 1,
{
    let s = decimal(n);
    let p = decimal(n / 10);
    assert(n >= 10);
    assert(s =~= p.push(crate::text::digit(0, false)));
    assert(crate::text::digit(0, false) == '0');
}

proof fn lemma_padded_end(n: int, width: int)
    requires
        0 < n,
        n % 10 != 0,
        decimal(n).len() <= width,
    ensures
        without_zeros(zero_padded(decimal(n), width)) == zero_padded(decimal(n), width),
{
    let s = decimal(n);
    crate::text::lemma_digits_len(n, 10, false);
    assert(s.last() == crate::text::digit(n % 10, false));
    assert(s.last() != '0');
    assert(zero_padded(s, width).last() == s.last());
}

proof fn lemma_decimal_len(n: int, width: int)
    requires
        0 <= n,
        1 <= width <= 6,
        n < (if width == 1 {
            10
        } else if width == 2 {
            100
        } else if width == 3 {
            1000
        } else if width == 4 {
            10_000
        } else if width == 5 {
            100_000
        } else {
            1_000_000int
        }),
    ensures
        decimal(n).len() <= width,
    decreases width,
{
    crate::text::lemma_digits_len(n, 10, false);
    if width > 1 {
        lemma_decimal_len(n / 10, width - 1);
    }
}

/// Writes a number of millionths, with no more decimals than it needs.
pub fn fmt_number(micros: i64) -> (r: String)
    ensures
        r@ == number_text(micros as int),
{
    let mut out: String = String::new();
    let size: u64 = if micros < 0 {
        out.append("-");
        if micros == i64::MIN {
            0x8000_0000_0000_0000
        } else {
            (-micros) as u64
        }
    } else {
        micros as u64
    };
    let ghost sign = out@;
    push_decimal(&mut out, size / 1_000_000);
    let part: u64 = size % 1_000_000;
    if part > 0 {
        out.append(".");
        let ghost head = out@;
        let mut rest: u64 = part;
        let mut width: usize = 6;
        proof {
            lemma_decimal_len(part as int, 6);
        }
        while rest % 10 == 0
            invariant
                0 < rest < 1_000_000,
                1 <= width <= 6,
                decimal(rest as int).len() <= width,
                without_zeros(zero_padded(decimal(part as int), 6)) == without_zeros(
                    zero_padded(decimal(rest as int), width as int),
                ),
            decreases rest,
        {
            proof {
                lemma_padded_shift(rest as int, width as int);
                crate::text::lemma_digits_len(rest as int / 10, 10, false);
            }
            rest = rest / 10;
            width = width - 1;
        }
        proof {
            lemma_padded_end(rest as int, width as int);
        }
        push_decimal_padded(&mut out, rest, width);
    }
    out
}

/// A point of a curve.
#[derive(Debug, Clone, Copy, PartialEq, Eq, Structural)]
pub struct Point {
    pub time: i64,
    pub value: i64,
    /// Continues smoothly from the previous point, rather than jumping.
    pub glide: bool,
}

/// The point put behind those that are not later.
pub open spec fn insert_point(points: Seq<Point>, p: Point) -> Seq<Point>
    decreases points.len(),
{
    if points.len() == 0 || points.last().time <= p.time {
        points.push(p)
    } else {
        insert_point(points.drop_last(), p).push(points.last())
    }
}

/// The points in the order of their times; those of the same time keep their order.
pub open spec fn in_time_order(points: Seq<Point>) -> Seq<Point>
    decreases points.len(),
{
    if points.len() == 0 {
        Seq::empty()
    } else {
        insert_point(in_time_order(points.drop_last()), points.last())
    }
}

/// Puts a point into a list that stands in the order of time.
fn put_point(points: &mut Vec<Point>, p: Point)
    ensures
        final(points)@ == insert_point(old(points)@, p),
{
    let ghost start = points@;
    let mut i: usize = points.len();
    let ghost mut tail: Seq<Point> = Seq::empty();
    proof {
        assert(start.take(i as int) =~= start);
        assert(insert_point(start, p) + tail =~= insert_point(start, p));
        assert(start.take(i as int) + tail =~= start);
    }
    while i > 0 && points[i - 1].time > p.time
        invariant
            i <= points.len(),
            points@ == start,
            start.take(i as int) + tail == start,
            insert_point(start.take(i as int), p) + tail == insert_point(start, p),
        decreases i,
    {
        proof {
            let cur = start.take(i as int);
            assert(cur.last() == points[i - 1]);
            assert(cur.drop_last() =~= start.take(i - 1));
            assert(insert_point(cur.drop_last(), p).push(cur.last()) + tail =~= insert_point(
                start.take(i - 1),
                p,
            ) + (seq![cur.last()] + tail));
            assert(start.take(i - 1) + (seq![cur.last()] + tail) =~= start.take(i as int) + tail);
            tail = seq![cur.last()] + tail;
        }
        i -= 1;
    }
    proof {
        let cur = start.take(i as int);
        if i > 0 {
            assert(cur.last() == points[i - 1]);
        }
        assert(insert_point(cur, p) == cur.push(p));
        assert(cur.push(p) + tail =~= start.insert(i as int, p));
    }
    points.insert(i, p);
}

/// The points in the order of their times.
pub fn sort_points(points: &Vec<Point>) -> (r: Vec<Point>)
    ensures
        r@ == in_time_order(points@),
{
    let mut out: Vec<Point> = Vec::new();
    let mut i: usize = 0;
    assert(points@.take(0) =~= Seq::<Point>::empty());
    while i < points.len()
        invariant
            i <= points.len(),
            out@ == in_time_order(points@.take(i as int)),
        decreases points.len() - i,
    {
        proof {
            assert(points@.take(i + 1).drop_last() =~= points@.take(i as int));
            assert(points@.take(i + 1).last() == points[i as int]);
        }
        put_point(&mut out, points[i]);
        i += 1;
    }
    assert(points@.take(i as int) =~= points@);
    out
}

proof fn lemma_insert_point(points: Seq<Point>, p: Point)
    requires
        forall|i: int, j: int|
            0 <= i < j < points.len() ==> (#[trigger] points[i]).time <= (#[trigger] points[j]).time,
    ensures
        insert_point(points, p).len() == points.len() + 1,
        insert_point(points, p).to_multiset() == points.to_multiset().insert(p),
        forall|i: int, j: int|
            0 <= i < j < insert_point(points, p).len() ==> (#[trigger] insert_point(
                points,
                p,
            )[i]).time <= (#[trigger] insert_point(points, p)[j]).time,
        forall|i: int|
            0 <= i < insert_point(points, p).len() ==> (#[trigger] insert_point(points, p)[i]).time
                <= p.time || (points.len() > 0 && insert_point(points, p)[i].time
                <= points.last().time),
    decreases points.len(),
{
    broadcast use vstd::seq_lib::group_to_multiset_ensures;

    let r = insert_point(points, p);
    if points.len() == 0 || points.last().time <= p.time {
        assert forall|i: int, j: int| 0 <= i < j < r.len() implies (#[trigger] r[i]).time <= (
        #[trigger] r[j]).time by {
            if j == points.len() && i < points.len() - 1 {
                assert(points[i].time <= points[points.len() - 1].time);
            }
        }
        assert forall|i: int| 0 <= i < r.len() implies (#[trigger] r[i]).time <= p.time by {
            if i < points.len() - 1 {
                assert(points[i].time <= points[points.len() - 1].time);
            }
        }
    } else {
        let d = points.drop_last();
        lemma_insert_point(d, p);
        let q = insert_point(d, p);
        assert(points =~= d.push(points.last()));
        assert(r.to_multiset() =~= points.to_multiset().insert(p));
        assert forall|i: int, j: int| 0 <= i < j < r.len() implies (#[trigger] r[i]).time <= (
        #[trigger] r[j]).time by {
            assert(r[i] == q[i]);
            if j == q.len() {
                if d.len() > 0 {
                    assert(points[d.len() - 1].time <= points[points.len() - 1].time);
                }
            } else {
                assert(r[j] == q[j]);
            }
        }
        assert forall|i: int| 0 <= i < r.len() implies (#[trigger] r[i]).time
            <= points.last().time by {
            if i < q.len() {
                assert(r[i] == q[i]);
                if d.len() > 0 {
                    assert(points[d.len() - 1].time <= points[points.len() - 1].time);
                }
            }
        }
    }
}

/// Sorting puts the points in the order of time and loses none.
pub proof fn law_points_in_time_order(points: Seq<Point>)
    ensures
        in_time_order(points).len() == points.len(),
        in_time_order(points).to_multiset() == points.to_multiset(),
        forall|i: int, j: int|
            0 <= i < j < points.len() ==> (#[trigger] in_time_order(points)[i]).time <= (
            #[trigger] in_time_order(points)[j]).time,
    decreases points.len(),
{
    broadcast use vstd::seq_lib::group_to_multiset_ensures;

    if points.len() > 0 {
        law_points_in_time_order(points.drop_last());
        lemma_insert_point(in_time_order(points.drop_last()), points.last());
        assert(points =~= points.drop_last().push(points.last()));
    }
}

/// A time and a value.
pub type Mark = (i64, i64);

/// A time, less a step.
pub open spec fn stepped_back(time: i64) -> i64 {
    clamped(time - STEP)
}

/// The marks of a curve: before every jump stands one that holds the value before it, so that
/// the line between two marks is a step rather than a ramp. A point that glides is joined to
/// the one before it.
pub open spec fn stepped(points: Seq<Point>) -> Seq<Mark>
    decreases points.len(),
{
    if points.len() == 0 {
        Seq::empty()
    } else {
        let before = stepped(points.drop_last());
        let p = points.last();
        let held = if points.len() > 1 && p.value != points[points.len() - 2].value && !p.glide {
            before.push((stepped_back(p.time), points[points.len() - 2].value))
        } else {
            before
        };
        held.push((p.time, p.value))
    }
}

/// The marks of a curve.
pub fn step_points_with_glide(points: &Vec<Point>) -> (r: Vec<Mark>)
    ensures
        r@ == stepped(points@),
{
    let mut out: Vec<Mark> = Vec::new();
    let mut i: usize = 0;
    assert(points@.take(0) =~= Seq::<Point>::empty());
    while i < points.len()
        invariant
            i <= points.len(),
            out@ == stepped(points@.take(i as int)),
        decreases points.len() - i,
    {
        let p: Point = points[i];
        proof {
            let now = points@.take(i + 1);
            assert(now.drop_last() =~= points@.take(i as int));
            assert(now.last() == p);
            if i > 0 {
                assert(now[now.len() - 2] == points[i - 1]);
            }
        }
        if i > 0 && p.value != points[i - 1].value && !p.glide {
            out.push((clamp64(p.time as i128 - STEP as i128), points[i - 1].value));
        }
        out.push((p.time, p.value));
        i += 1;
    }
    assert(points@.take(i as int) =~= points@);
    out
}

/// Every jump of a curve is a step: the mark before it holds the value of the point before, a
/// thousandth of a beat earlier.
pub proof fn law_jumps_are_steps(points: Seq<Point>)
    requires
        points.len() >= 2,
        !points.last().glide,
        points.last().value != points[points.len() - 2].value,
    ensures
        ({
            let m = stepped(points);
            &&& m.len() >= 2
            &&& m.last() == (points.last().time, points.last().value)
            &&& m[m.len() - 2] == (
                stepped_back(points.last().time),
                points[points.len() - 2].value,
            )
        }),
{
}

/// No attributes but one.
pub open spec fn attr1(k: Seq<char>, v: Seq<char>) -> Map<Seq<char>, Seq<char>> {
    Map::empty().insert(k, v)
}

/// An element at a depth.
pub open spec fn element_at(
    depth: usize,
    name: Seq<char>,
    attributes: Map<Seq<char>, Seq<char>>,
) -> NodeView {
    NodeView { depth, content: ContentView::Element { name, scope: no_scope(), attributes } }
}

/// Adds an element without attributes at the end of the list of nodes.
pub fn add_element(doc: &mut Document, depth: usize, name: &str)
    ensures
        final(doc)@ == old(doc)@.push(element_at(depth, name@, Map::empty())),
        final(doc).nodes.len() == old(doc).nodes.len() + 1,
        old(doc)@.len() > 0 && is_tree(old(doc)@) && 1 <= depth && depth
            <= old(doc)@.last().depth + 1 && old(doc)@.last().content is Element ==> is_tree(
            final(doc)@,
        ),
{
    let ghost start = doc.nodes@;
    let attributes: Vec<(String, String)> = Vec::new();
    assert(attribute_map(attributes@) == Map::<Seq<char>, Seq<char>>::empty());
    let scope: Scope = Scope::none();
    let node = Node {
        depth,
        content: Content::Element { name: name.to_owned(), scope, attributes },
    };
    doc.nodes.push(node);
    proof {
        assert(node_views(doc.nodes@) =~= node_views(start).push(node@));
        let d = node_views(start);
        let e = d.push(node@);
        if d.len() > 0 && is_tree(d) && 1 <= depth && depth <= d.last().depth + 1
            && d.last().content is Element {
            assert forall|i: int| 0 <= i < e.len() - 1 implies #[trigger] follows_at(e, i) by {
                if i < d.len() - 1 {
                    assert(follows_at(d, i));
                }
            }
        }
    }
}

/// Sets an attribute of the last node.
pub fn with_attr(doc: &mut Document, key: &str, value: &str)
    requires
        old(doc).nodes.len() > 0,
    ensures
        final(doc)@ == old(doc)@.drop_last().push(old(doc)@.last().with_attribute(key@, value@)),
        final(doc).nodes.len() == old(doc).nodes.len(),
        is_tree(old(doc)@) ==> is_tree(final(doc)@),
{
    let n: usize = doc.nodes.len();
    let ghost start = doc@;
    doc.set_attribute(n - 1, key, value);
    assert(doc@ =~= start.drop_last().push(start.last().with_attribute(key@, value@)));
}

/// A mark as an element of an automation.
pub open spec fn float_event(depth: usize, id: Seq<char>, time: Seq<char>, value: Seq<char>) -> NodeView {
    element_at(
        depth,
        "FloatEvent"@,
        attr1("Id"@, id).insert("Time"@, time).insert("Value"@, value),
    )
}

/// The number behind `n` more.
pub open spec fn after_n(next: u64, n: int) -> u64
    decreases n,
{
    if n <= 0 {
        next
    } else {
        after(after_n(next, n - 1))
    }
}

/// The marks of an automation, with identities from `next` on.
pub open spec fn mark_events(depth: usize, marks: Seq<Mark>, next: u64) -> Doc
    decreases marks.len(),
{
    if marks.len() == 0 {
        Seq::empty()
    } else {
        mark_events(depth, marks.drop_last(), next).push(
            float_event(
                depth,
                decimal(after_n(next, marks.len() - 1) as int),
                number_text(marks.last().0 as int),
                number_text(marks.last().1 as int),
            ),
        )
    }
}

/// The automation of one parameter: what it points at, the value before it starts, and its
/// marks.
pub open spec fn envelope_of(
    marks: Seq<Mark>,
    pointee: Seq<char>,
    baseline: i64,
    next: u64,
) -> Doc {
    seq![
        element_at(0, "AutomationEnvelope"@, attr1("Id"@, decimal(next as int))),
        element_at(1, "EnvelopeTarget"@, Map::empty()),
        element_at(2, "PointeeId"@, attr1("Value"@, pointee)),
        element_at(1, "Automation"@, Map::empty()),
        element_at(2, "Events"@, Map::empty()),
        float_event(
            3,
            decimal(after(next) as int),
            AUTOMATION_SENTINEL_TIME@,
            number_text(baseline as int),
        ),
    ] + mark_events(3, marks, after(after(next))) + seq![
        element_at(2, "AutomationTransformViewState"@, Map::empty()),
        element_at(3, "IsTransformPending"@, attr1("Value"@, "false"@)),
        element_at(3, "TimeAndValueTransforms"@, Map::empty()),
    ]
}

/// The next identity behind those of an automation.
pub open spec fn envelope_next(marks: Seq<Mark>, next: u64) -> u64 {
    after_n(after(after(next)), marks.len() as int)
}

fn add_float_event(doc: &mut Document, depth: usize, id: &str, time: &str, value: &str)
    ensures
        final(doc)@ == old(doc)@.push(float_event(depth, id@, time@, value@)),
        old(doc)@.len() > 0 && is_tree(old(doc)@) && 1 <= depth && depth
            <= old(doc)@.last().depth + 1 && old(doc)@.last().content is Element ==> is_tree(
            final(doc)@,
        ),
{
    let ghost start = doc@;
    add_element(doc, depth, "FloatEvent");
    with_attr(doc, "Id", id);
    with_attr(doc, "Time", time);
    with_attr(doc, "Value", value);
    assert(doc@ =~= start.push(float_event(depth, id@, time@, value@)));
}

/// Builds the automation of one parameter.
pub fn build_envelope(marks: &Vec<Mark>, pointee: &str, baseline: i64, ids: &mut IdCounter) -> (r:
    Document)
    ensures
        r@ == envelope_of(marks@, pointee@, baseline, old(ids).next),
        final(ids).next == envelope_next(marks@, old(ids).next),
        is_tree(r@),
{
    let ghost next = ids.next;
    let mut doc: Document = Document::new("AutomationEnvelope");
    let id: String = ids.take_text();
    with_attr(&mut doc, "Id", id.as_str());
    add_element(&mut doc, 1, "EnvelopeTarget");
    add_element(&mut doc, 2, "PointeeId");
    with_attr(&mut doc, "Value", pointee);
    add_element(&mut doc, 1, "Automation");
    add_element(&mut doc, 2, "Events");
    let first: String = ids.take_text();
    let start_value: String = fmt_number(baseline);
    add_float_event(&mut doc, 3, first.as_str(), AUTOMATION_SENTINEL_TIME, start_value.as_str());
    let ghost head = doc@;
    proof {
        assert(head =~= seq![
            element_at(0, "AutomationEnvelope"@, attr1("Id"@, decimal(next as int))),
            element_at(1, "EnvelopeTarget"@, Map::empty()),
            element_at(2, "PointeeId"@, attr1("Value"@, pointee@)),
            element_at(1, "Automation"@, Map::empty()),
            element_at(2, "Events"@, Map::empty()),
            float_event(
                3,
                decimal(after(next) as int),
                AUTOMATION_SENTINEL_TIME@,
                number_text(baseline as int),
            ),
        ]);
    }
    let ghost base = ids.next;
    let mut i: usize = 0;
    assert(marks@.take(0) =~= Seq::<Mark>::empty());
    assert(head + mark_events(3, marks@.take(0), base) =~= head);
    while i < marks.len()
        invariant
            i <= marks.len(),
            head.len() == 6,
            head.last().depth == 3 && head.last().content is Element,
            ids.next == after_n(base, i as int),
            doc@ == head + mark_events(3, marks@.take(i as int), base),
            is_tree(doc@),
            doc@.len() > 0,
            doc@.last().depth == 3,
            doc@.last().content is Element,
        decreases marks.len() - i,
    {
        let (time, value) = marks[i];
        proof {
            assert(marks@.take(i + 1).drop_last() =~= marks@.take(i as int));
            assert(marks@.take(i + 1).last() == marks[i as int]);
        }
        let mark_id: String = ids.take_text();
        let time_text: String = fmt_number(time);
        let value_text: String = fmt_number(value);
        add_float_event(&mut doc, 3, mark_id.as_str(), time_text.as_str(), value_text.as_str());
        i += 1;
        assert(doc@ =~= head + mark_events(3, marks@.take(i as int), base));
    }
    assert(marks@.take(i as int) =~= marks@);
    let ghost middle = doc@;
    add_element(&mut doc, 2, "AutomationTransformViewState");
    add_element(&mut doc, 3, "IsTransformPending");
    with_attr(&mut doc, "Value", "false");
    add_element(&mut doc, 3, "TimeAndValueTransforms");
    assert(doc@ =~= middle + seq![
        element_at(2, "AutomationTransformViewState"@, Map::empty()),
        element_at(3, "IsTransformPending"@, attr1("Value"@, "false"@)),
        element_at(3, "TimeAndValueTransforms"@, Map::empty()),
    ]);
    doc
}

/// The document with an automation put below the list of them, if there are marks.
pub open spec fn with_envelope(
    d: Doc,
    at: int,
    marks: Seq<Mark>,
    pointee: Seq<char>,
    baseline: i64,
    next: u64,
) -> Doc {
    if marks.len() == 0 {
        d
    } else {
        crate::xmlutil::with_child(d, at, envelope_of(marks, pointee, baseline, next))
    }
}

/// The next identity behind that of an automation, if there are marks.
pub open spec fn next_behind_envelope(marks: Seq<Mark>, next: u64) -> u64 {
    if marks.len() == 0 {
        next
    } else {
        envelope_next(marks, next)
    }
}

/// Puts the automation of one parameter below the list of them at `at`. Without marks there is
/// nothing to automate.
pub fn build_automation_envelope(
    doc: &mut Document,
    at: usize,
    marks: &Vec<Mark>,
    pointee: &str,
    ids: &mut IdCounter,
    baseline: i64,
)
    requires
        at < old(doc).nodes.len(),
        old(doc)@[at as int].content is Element,
    ensures
        final(doc)@ == with_envelope(
            old(doc)@,
            at as int,
            marks@,
            pointee@,
            baseline,
            old(ids).next,
        ),
        final(ids).next == next_behind_envelope(marks@, old(ids).next),
        is_tree(old(doc)@) ==> is_tree(final(doc)@),
        final(doc).nodes.len() >= old(doc).nodes.len(),
{
    if marks.len() > 0 {
        let envelope: Document = build_envelope(marks, pointee, baseline, ids);
        doc.append_child(at, envelope);
    }
}

} // verus!
