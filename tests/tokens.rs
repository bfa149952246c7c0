use xml_textbuf::buffer::{BufCow, BufSlice, Buffer};
use xml_textbuf::event::{
    Attribute, CowEvent, Event, Name, OwnedAttribute, OwnedName, ReifiedEvent, XmlVersion,
};

fn filled(s: &str) -> Buffer {
    let mut b = Buffer::new();
    b.push_str(s);
    b
}

#[test]
fn slice_reads_its_span() {
    let b = filled("hello world");
    let s = BufSlice::new(&b, 6, 11);
    assert!(b.check_slice_within_buffer(s));
    assert_eq!(b.reify(s), "world");
    assert_eq!(s.as_reified(&b), "world");
}

#[test]
fn slice_counts_characters() {
    let b = filled("\u{15f}\u{14f}x");
    let s = BufSlice::new(&b, 1, 3);
    assert_eq!(b.len(), 3);
    assert_eq!(b.reify(s), "\u{14f}x");
}

#[test]
fn static_slice_needs_no_buffer() {
    let b = Buffer::new();
    let s = BufSlice::new_static("version");
    assert!(b.check_slice_within_buffer(s));
    assert_eq!(b.reify(s), "version");
}

#[test]
fn slice_survives_appends() {
    let mut b = filled("abc");
    let s = BufSlice::new(&b, 1, 3);
    for _ in 0..1000 {
        b.push_str("more text ");
    }
    assert!(b.check_slice_within_buffer(s));
    assert_eq!(b.reify(s), "bc");
    assert!(b.as_str().starts_with("abcmore"));
}

#[test]
fn slice_of_other_buffer_is_refused() {
    let a = filled("first buffer");
    let b = filled("second buffer, longer");
    let s = BufSlice::new(&a, 0, 5);
    assert!(a.check_slice_within_buffer(s));
    assert_ne!(a.identity(), b.identity());
    assert!(!b.check_slice_within_buffer(s));
}

#[test]
fn cow_text_reifies_both_ways() {
    let b = filled("abcdef");
    let e = BufCow::Ephemeral(BufSlice::new(&b, 2, 4));
    let o = BufCow::Owned("own".to_string());
    assert_eq!(e.as_reified(&b), "cd");
    assert_eq!(o.as_reified(&b), "own");
    assert_eq!(e.reify(&b), "cd");
    assert_eq!(o.reify(&b), "own");
}

fn name(b: &Buffer, start: usize, end: usize) -> Name {
    Name { local_name: BufSlice::new(b, start, end), namespace: None, prefix: None }
}

fn owned_name(s: &str) -> OwnedName {
    OwnedName { local_name: s.to_string(), namespace: None, prefix: None }
}

#[test]
fn event_constructors_and_accessors() {
    let b = filled("root key value text");
    let attr = Attribute { name: name(&b, 5, 8), value: BufCow::Ephemeral(BufSlice::new(&b, 9, 14)) };
    let mut start = Event::start_element(name(&b, 0, 4), vec![attr]);
    assert_eq!(b.reify(start.start_element_name().local_name), "root");
    assert_eq!(start.attributes().len(), 1);
    start.attributes_mut().clear();
    assert!(start.attributes().is_empty());

    let end = Event::end_element(name(&b, 0, 4));
    assert_eq!(b.reify(end.end_element_name().local_name), "root");

    let mut text = Event::text(BufSlice::new(&b, 15, 19));
    assert_eq!(b.reify(text.as_text()), "text");
    *text.as_text_ref_mut() = BufSlice::new(&b, 0, 1);
    assert_eq!(b.reify(text.as_text()), "r");
}

#[test]
fn event_reifies_to_owned_text() {
    let b = filled("root key value 1.0 pi data");
    let attr = Attribute { name: name(&b, 5, 8), value: BufCow::Ephemeral(BufSlice::new(&b, 9, 14)) };
    let start = Event::start_element(name(&b, 0, 4), vec![attr]);
    assert_eq!(
        start.as_reified(&b),
        ReifiedEvent::StartElement {
            name: owned_name("root"),
            attributes: vec![OwnedAttribute { name: owned_name("key"), value: "value".to_string() }],
        }
    );
    let doc = Event::start_document(XmlVersion::Version10, BufSlice::new_static("UTF-8"), Some(true));
    assert_eq!(
        doc.as_reified(&b),
        ReifiedEvent::StartDocument {
            version: XmlVersion::Version10,
            encoding: "UTF-8".to_string(),
            standalone: Some(true),
        }
    );
    let pi = Event::processing_instruction(BufSlice::new(&b, 19, 21), Some(BufSlice::new(&b, 22, 26)));
    assert_eq!(
        pi.as_reified(&b),
        ReifiedEvent::ProcessingInstruction { name: "pi".to_string(), data: Some("data".to_string()) }
    );
    assert_eq!(Event::end_document().as_reified(&b), ReifiedEvent::EndDocument);
    assert_eq!(
        Event::doctype_declaration(BufSlice::new(&b, 0, 4)).as_reified(&b),
        ReifiedEvent::DoctypeDeclaration { content: "root".to_string() }
    );
    assert_eq!(Event::cdata(BufSlice::new(&b, 5, 8)).as_reified(&b), ReifiedEvent::CData("key".to_string()));
    assert_eq!(Event::comment(BufSlice::new(&b, 5, 8)).as_reified(&b), ReifiedEvent::Comment("key".to_string()));
    assert_eq!(
        Event::whitespace(BufSlice::new(&b, 4, 5)).as_reified(&b),
        ReifiedEvent::Whitespace(" ".to_string())
    );
}

#[test]
fn reify_in_place_is_idempotent() {
    let mut b = filled("some text");
    let mut e = CowEvent::Ephemeral(Event::text(BufSlice::new(&b, 5, 9)));
    assert!(e.is_text());
    assert!(!e.is_end_element());
    e.reify_in_place(&b);
    let first = match &e {
        CowEvent::Reified(r) => r.clone(),
        CowEvent::Ephemeral(_) => panic!("still ephemeral"),
    };
    assert_eq!(first, ReifiedEvent::Text("text".to_string()));
    b.push_str(" and more");
    e.reify_in_place(&b);
    match &e {
        CowEvent::Reified(r) => assert_eq!(*r, first),
        CowEvent::Ephemeral(_) => panic!("still ephemeral"),
    }
    assert!(e.is_text());
    assert_eq!(e.reify(&b), first);
}

#[test]
fn cow_event_kinds() {
    let b = filled("end");
    let e = CowEvent::Ephemeral(Event::end_element(name(&b, 0, 3)));
    assert!(e.is_end_element());
    assert!(!e.is_text());
    let r = CowEvent::Reified(ReifiedEvent::EndElement { name: owned_name("end") });
    assert!(r.is_end_element());
    assert_eq!(e.reify(&b), ReifiedEvent::EndElement { name: owned_name("end") });
}

#[test]
fn conversions_into_cow_types() {
    let b = filled("abc");
    let s = BufSlice::new(&b, 0, 2);
    let c: BufCow = s.into();
    assert_eq!(c.as_reified(&b), "ab");
    let o: BufCow = String::from("xyz").into();
    assert_eq!(o.as_reified(&b), "xyz");
    let e: CowEvent = Event::text(s).into();
    assert!(e.is_text());
    let r: CowEvent = ReifiedEvent::Comment("c".to_string()).into();
    assert!(!r.is_text());
    assert_eq!(r.reify(&b), ReifiedEvent::Comment("c".to_string()));
}

#[test]
fn owned_text_buffer_has_requested_size() {
    use_size(4);
    use_size(0);
    use_size(100);
}

fn use_size(n: usize) {
    let t = xml_textbuf::encodings::StrBuffer::new_owned(n);
    assert_eq!(t.as_str().len(), n);
    assert!(t.as_str().bytes().all(|b| b == 0));
    let b = xml_textbuf::encodings::Buffer::new_owned(n);
    assert_eq!(b.len(), n);
    assert!(b.as_slice().iter().all(|&x| x == 0));
}
