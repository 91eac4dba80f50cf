use ablemod::export::als::{
    find_sampler_track_template, open_template, read_set, write_set,
};
use ablemod::export::ids::{max_id, parse_number, renumber_global_ids, IdCounter};
use ablemod::xml::{read_document, write_document};
use ablemod::xmlutil::{
    child, find, find_all_children, find_all_descendants, iter_elements, set_value, set_values,
    Document,
};
use std::io::Write;

const SMALL: &str = "<Root Id=\"7\"><A Value=\"1\"><B Id=\"1200\"/><B Id=\"5\"/></A><C><A><D Value=\"x\"/></A></C></Root>";

fn small() -> Document {
    read_document(SMALL.as_bytes()).unwrap()
}

#[test]
fn paths_are_followed() {
    let d = small();
    assert_eq!(d.nodes.len(), 7);
    let a = find(&d, 0, "./A").unwrap();
    assert_eq!(d.attribute(a, "Value"), Some("1".to_string()));
    assert_eq!(child(&d, 0, "C"), find(&d, 0, "./C"));
    // The first descendant of the name decides, whatever stands below it.
    assert_eq!(find(&d, 0, ".//A/D"), None);
    assert!(find(&d, 0, "./C/A/D").is_some());
    assert!(find(&d, 0, ".//D").is_some());
    assert_eq!(find(&d, 0, "./Missing"), None);
}

#[test]
fn elements_are_listed() {
    let d = small();
    let a = find(&d, 0, "./A").unwrap();
    assert_eq!(find_all_children(&d, a, "B").len(), 2);
    assert_eq!(find_all_children(&d, 0, "B").len(), 0);
    assert_eq!(find_all_descendants(&d, 0, "A").len(), 2);
    assert_eq!(iter_elements(&d, 0).len(), 7);
}

#[test]
fn values_are_set() {
    let mut d = small();
    assert!(set_value(&mut d, 0, "./C/A/D", "y"));
    let at = find(&d, 0, "./C/A/D").unwrap();
    assert_eq!(d.attribute(at, "Value"), Some("y".to_string()));
    assert!(!set_value(&mut d, 0, "./C/Nothing", "y"));
    assert!(set_values(&mut d, 0, &vec![("./A", "2"), ("./C/A/D", "z")]));
    assert!(!set_values(&mut d, 0, &vec![("./A", "3"), ("./Nowhere", "z")]));
}

#[test]
fn children_come_and_go() {
    let mut d = small();
    let a = find(&d, 0, "./A").unwrap();
    let part = d.copy(find(&d, 0, "./C").unwrap());
    assert_eq!(part.nodes.len(), 3);
    d.append_child(a, part);
    assert!(find(&d, 0, "./A/C/A/D").is_some());
    d.clear_children(a);
    assert!(find(&d, 0, "./A/C").is_none());
    assert!(find(&d, 0, "./A/B").is_none());
    assert!(find(&d, 0, "./C/A/D").is_some());
    let c = find(&d, 0, "./C").unwrap();
    d.remove(c);
    assert_eq!(d.nodes.len(), 2);
}

#[test]
fn documents_are_read_back() {
    let d = small();
    let bytes = write_document(&d).unwrap();
    let text = String::from_utf8(bytes.clone()).unwrap();
    assert!(text.starts_with("<?xml version=\"1.0\" encoding=\"UTF-8\"?>\n"));
    let e = read_document(&bytes).unwrap();
    assert_eq!(e.nodes.len(), d.nodes.len());
    for i in 0..d.nodes.len() {
        assert_eq!(e.attribute(i, "Id"), d.attribute(i, "Id"));
        assert_eq!(e.attribute(i, "Value"), d.attribute(i, "Value"));
        assert_eq!(e.nodes[i].depth, d.nodes[i].depth);
    }
}

#[test]
fn sets_are_read_back() {
    let d = small();
    let bytes = write_set(&d).unwrap();
    assert_eq!(&bytes[..2], &[0x1f, 0x8b]);
    let e = read_set(&bytes).unwrap();
    assert_eq!(e.nodes.len(), d.nodes.len());
    assert_eq!(e.attribute(0, "Id"), Some("7".to_string()));
}

#[test]
fn bad_sets_are_refused() {
    let e = read_set(b"not gzip").unwrap_err();
    assert!(e.starts_with("failed to gunzip template: "), "{}", e);
    let mut z = Vec::new();
    {
        let mut enc = flate2::write::GzEncoder::new(&mut z, flate2::Compression::default());
        enc.write_all(&[0x3c, 0xff, 0xfe]).unwrap();
        enc.finish().unwrap();
    }
    assert_eq!(
        read_set(&z).unwrap_err(),
        "failed to gunzip template: stream did not contain valid UTF-8"
    );
    let mut y = Vec::new();
    {
        let mut enc = flate2::write::GzEncoder::new(&mut y, flate2::Compression::default());
        enc.write_all(b"<open>").unwrap();
        enc.finish().unwrap();
    }
    let e = read_set(&y).unwrap_err();
    assert!(e.starts_with("failed to parse template XML: "), "{}", e);
}

#[test]
fn templates_need_their_parts() {
    let doc = |s: &str| read_document(s.as_bytes()).unwrap();
    assert_eq!(
        find_sampler_track_template(&doc("<A/>")).unwrap_err(),
        "template .als has no LiveSet element"
    );
    assert_eq!(
        find_sampler_track_template(&doc("<A><LiveSet/></A>")).unwrap_err(),
        "template .als has no Tracks element"
    );
    let e = find_sampler_track_template(&doc(
        "<A><LiveSet><Tracks><MidiTrack/></Tracks></LiveSet></A>",
    ))
    .unwrap_err();
    assert!(e.starts_with("The template .als has no MidiTrack with both a Sampler"), "{}", e);
    let bytes = write_set(&doc("<A><LiveSet/></A>")).unwrap();
    assert_eq!(
        open_template(&bytes).unwrap_err(),
        "template .als has no Tracks element"
    );
}

#[test]
fn global_numbers_are_renewed() {
    let mut d = read_document(
        b"<T Id=\"3\"><P Id=\"1500\"/><Q><PointeeId Value=\"1500\"/></Q><R Id=\"20\"/></T>",
    )
    .unwrap();
    let mut ids = IdCounter { next: 9000 };
    renumber_global_ids(&mut d, &mut ids);
    let p = find(&d, 0, "./P").unwrap();
    let q = find(&d, 0, "./Q/PointeeId").unwrap();
    let r = find(&d, 0, "./R").unwrap();
    assert_eq!(d.attribute(p, "Id"), Some("9000".to_string()));
    assert_eq!(d.attribute(q, "Value"), Some("9000".to_string()));
    assert_eq!(d.attribute(r, "Id"), Some("20".to_string()));
    assert_eq!(ids.next, 9001);
}

#[test]
fn the_largest_number_is_found() {
    assert_eq!(max_id(&small()), 1200);
    assert_eq!(max_id(&read_document(b"<A Id=\"x\"/>").unwrap()), 0);
    assert_eq!(max_id(&read_document(b"<A Id=\"-5\"/>").unwrap()), 0);
    assert_eq!(parse_number("9223372036854775807"), Some(9223372036854775807));
    assert_eq!(parse_number("9223372036854775808"), None);
    assert_eq!(parse_number("12a"), None);
}

/// What is read back of a document that was written.
fn again(d: &Document) -> Document {
    read_document(&write_document(d).unwrap()).unwrap()
}

#[test]
fn texts_and_comments_are_read_back() {
    let text = "<A B=\"x&#10;y&#13;z&#9;&amp;&lt;&quot;'\">one &lt;two&gt; &amp; ]] \r\n three;=/<!-- a - b --><![CDATA[<c>&]] ]]><?go here?now ?><?stop?>\t four<D>five</D>six</A>";
    let d = read_document(text.as_bytes()).unwrap();
    assert_eq!(d.nodes.len(), 10);
    assert_eq!(d.attribute(0, "B"), Some("x\ny\rz\t&<\"'".to_string()));
    let first = format!("{:?}", d);
    assert!(first.contains("Text(\"one <two> & ]] \\r\\n three;=/\")"), "{}", first);
    assert!(first.contains("Comment(\" a - b \")"), "{}", first);
    assert!(first.contains("CData(\"<c>&]] \")"), "{}", first);
    assert!(first.contains("Instruction(\"go\", Some(\"here?now \"))"), "{}", first);
    assert!(first.contains("Instruction(\"stop\", None)"), "{}", first);
    assert_eq!(format!("{:?}", again(&d)), first);
}

#[test]
fn comments_are_set_off_by_spaces() {
    let d = read_document(b"<A><!--x--><!----><!--- y--></A>").unwrap();
    let e = again(&d);
    let text = format!("{:?}", e);
    assert!(text.contains("Comment(\" x \")"), "{}", text);
    assert!(text.contains("Comment(\"  \")"), "{}", text);
    assert!(text.contains("Comment(\" - y \")"), "{}", text);
    assert_eq!(format!("{:?}", again(&e)), text);
}

#[test]
fn namespaces_are_kept() {
    let d = read_document(b"<p:A xmlns:p=\"urn:x\" xmlns=\"urn:y\"><B C=\"1\"/></p:A>").unwrap();
    assert!(find(&d, 0, "./B").is_some());
    let e = again(&d);
    let text = String::from_utf8(write_document(&e).unwrap()).unwrap();
    assert!(text.contains("<p:A"), "{}", text);
    assert!(text.contains("xmlns:p=\"urn:x\""), "{}", text);
    assert_eq!(format!("{:?}", e), format!("{:?}", d));
}

#[test]
fn references_stay_in_their_track() {
    let track = b"<T Id=\"3\"><P Id=\"1500\"/><PointeeId Value=\"1500\"/><PointeeId Value=\"7777\"/></T>";
    let mut a = read_document(track).unwrap();
    let mut b = read_document(track).unwrap();
    let mut ids = IdCounter { next: 9000 };
    renumber_global_ids(&mut a, &mut ids);
    renumber_global_ids(&mut b, &mut ids);
    assert_eq!(a.attribute(2, "Value"), Some("9000".to_string()));
    assert_eq!(b.attribute(1, "Id"), Some("9001".to_string()));
    assert_eq!(b.attribute(2, "Value"), Some("9001".to_string()));
    assert_eq!(b.attribute(3, "Value"), Some("7777".to_string()));
}
