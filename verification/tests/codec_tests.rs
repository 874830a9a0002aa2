use todo_store::codec::{parse_document, serialize_document};
use todo_store::state::Item;

fn item(value: &str, id: u32) -> Item {
    Item { value: String::from(value), id }
}

#[test]
fn serialize_empty_document() {
    let text = serialize_document(&Vec::new(), &Vec::new());
    assert_eq!(text, "{\"todos\":[],\"completed\":[]}");
}

#[test]
fn serialize_two_lists_exactly() {
    let pending = vec![item("buy milk", 0), item("walk dog", 1)];
    let completed = vec![item("rest", 2)];
    let text = serialize_document(&pending, &completed);
    assert_eq!(
        text,
        "{\"todos\":[{\"value\":\"buy milk\",\"id\":0},{\"value\":\"walk dog\",\"id\":1}],\
         \"completed\":[{\"value\":\"rest\",\"id\":2}]}"
    );
}

#[test]
fn serialize_escapes_specials() {
    let pending = vec![item("a\"b\\c\nd\te\rf", 3)];
    let text = serialize_document(&pending, &Vec::new());
    assert_eq!(
        text,
        "{\"todos\":[{\"value\":\"a\\\"b\\\\c\\nd\\te\\rf\",\"id\":3}],\"completed\":[]}"
    );
}

#[test]
fn parse_reads_canonical_document() {
    let text = "{\"todos\":[{\"value\":\"buy milk\",\"id\":0}],\
                \"completed\":[{\"value\":\"rest\",\"id\":7}]}";
    let (pending, completed) = parse_document(text).unwrap();
    assert_eq!(pending.len(), 1);
    assert_eq!(pending[0].value, "buy milk");
    assert_eq!(pending[0].id, 0);
    assert_eq!(completed.len(), 1);
    assert_eq!(completed[0].value, "rest");
    assert_eq!(completed[0].id, 7);
}

#[test]
fn parse_reads_empty_document() {
    let (pending, completed) = parse_document("{\"todos\":[],\"completed\":[]}").unwrap();
    assert_eq!(pending.len(), 0);
    assert_eq!(completed.len(), 0);
}

#[test]
fn round_trip_preserves_lists() {
    let pending = vec![item("buy milk", 0), item("walk dog", 1), item("", 2)];
    let completed = vec![item("rest", 3), item("unicode âé日", 4)];
    let text = serialize_document(&pending, &completed);
    let (p2, c2) = parse_document(&text).unwrap();
    assert_eq!(p2.len(), pending.len());
    assert_eq!(c2.len(), completed.len());
    for (a, b) in pending.iter().zip(p2.iter()) {
        assert_eq!(a.value, b.value);
        assert_eq!(a.id, b.id);
    }
    for (a, b) in completed.iter().zip(c2.iter()) {
        assert_eq!(a.value, b.value);
        assert_eq!(a.id, b.id);
    }
}

#[test]
fn round_trip_preserves_escaped_text() {
    let pending = vec![item("quote \" slash \\ nl \n tab \t cr \r end", 0)];
    let text = serialize_document(&pending, &Vec::new());
    let (p2, c2) = parse_document(&text).unwrap();
    assert_eq!(p2.len(), 1);
    assert_eq!(p2[0].value, "quote \" slash \\ nl \n tab \t cr \r end");
    assert_eq!(p2[0].id, 0);
    assert_eq!(c2.len(), 0);
}

#[test]
fn round_trip_keeps_largest_id() {
    let pending = vec![item("edge", 4294967295)];
    let text = serialize_document(&pending, &Vec::new());
    assert_eq!(text, "{\"todos\":[{\"value\":\"edge\",\"id\":4294967295}],\"completed\":[]}");
    let (p2, _) = parse_document(&text).unwrap();
    assert_eq!(p2[0].id, 4294967295);
}

#[test]
fn parse_rejects_malformed_documents() {
    assert!(parse_document("").is_err());
    assert!(parse_document("{}").is_err());
    assert!(parse_document("{\"todos\":[]}").is_err());
    assert!(parse_document("{\"todos\":[],\"completed\":[]").is_err());
    assert!(parse_document("{\"todos\":[],\"completed\":[]} ").is_err());
    assert!(parse_document("{\"other\":[],\"completed\":[]}").is_err());
    assert!(parse_document("{\"todos\":[{\"value\":\"x\"}],\"completed\":[]}").is_err());
    assert!(parse_document("{\"todos\":[{\"value\":\"x\",\"id\":}],\"completed\":[]}").is_err());
    assert!(parse_document("{\"todos\":[{\"value\":\"x\",\"id\":1x}],\"completed\":[]}").is_err());
}

#[test]
fn parse_rejects_extra_whitespace() {
    assert!(parse_document("{ \"todos\":[],\"completed\":[]}").is_err());
    assert!(parse_document("{\"todos\": [],\"completed\":[]}").is_err());
}

#[test]
fn parse_rejects_bad_numbers() {
    // a leading zero is not canonical
    assert!(parse_document("{\"todos\":[{\"value\":\"x\",\"id\":01}],\"completed\":[]}").is_err());
    // one past the largest id
    assert!(
        parse_document("{\"todos\":[{\"value\":\"x\",\"id\":4294967296}],\"completed\":[]}")
            .is_err()
    );
    // the largest id itself is accepted
    assert!(
        parse_document("{\"todos\":[{\"value\":\"x\",\"id\":4294967295}],\"completed\":[]}")
            .is_ok()
    );
}

#[test]
fn parse_rejects_bad_escapes_and_unterminated_text() {
    assert!(parse_document("{\"todos\":[{\"value\":\"a\\x\",\"id\":0}],\"completed\":[]}").is_err());
    assert!(parse_document("{\"todos\":[{\"value\":\"a,\"id\":0}],\"completed\":[]}").is_err());
}
