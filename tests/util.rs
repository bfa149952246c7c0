use xml_textbuf::util::{IntoOwned, OptionBorrowExt};

#[test]
fn test_borrow_value() {
    let v: Option<i64> = Some(10);
    let r: Option<&i64> = v.borrow_internals();
    assert!(r.is_some());
    assert_eq!(*r.unwrap(), 10);

    let v: Option<i64> = None;
    let r: Option<&i64> = v.borrow_internals();
    assert!(r.is_none());
}

#[test]
fn test_borrow_string() {
    let v: Option<String> = Some("abcde".to_string());
    let r: Option<&str> = v.borrow_internals();
    assert!(r.is_some());
    assert_eq!(r.unwrap(), "abcde");

    let v: Option<String> = None;
    let r: Option<&str> = v.borrow_internals();
    assert!(r.is_none());
}

#[test]
fn test_into_owned() {
    let v1: String = "abcde".to_string();
    let v2: String = "abcde".to_string().into_owned();
    assert_eq!(v1, v2);
}

#[test]
fn str_into_owned() {
    let v: String = "xyz".into_owned();
    assert_eq!(v, "xyz");
}
