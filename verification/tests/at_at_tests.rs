use cargo_task::at_at::{AtAtParseItem, AtAtParser};

fn key_values(items: &[AtAtParseItem]) -> Vec<(String, String)> {
    let mut out = Vec::new();
    for item in items {
        if let AtAtParseItem::KeyValue(k, v) = item {
            out.push((k.clone(), v.clone()));
        }
    }
    out
}

fn parse_all(chunks: &[&[u8]]) -> Vec<(String, String)> {
    let mut parser = AtAtParser::new();
    let mut out = Vec::new();
    for chunk in chunks {
        let items = parser.parse(chunk).expect("not at end");
        out.extend(key_values(&items));
    }
    assert!(parser.parse(&[]).is_none());
    out
}

#[test]
fn single_line_directive() {
    let kv = parse_all(&[b"/*\n@ct-default@ true @@\n*/\n"]);
    assert_eq!(kv, vec![("ct-default".to_string(), "true".to_string())]);
}

#[test]
fn multi_line_directive_value() {
    let kv = parse_all(&[b"/*\n@ct-task-deps@\none\ntwo\n@@\n*/\n"]);
    assert_eq!(kv, vec![("ct-task-deps".to_string(), "one\ntwo".to_string())]);
}

#[test]
fn directive_at_first_byte() {
    let kv = parse_all(&[b"@a@b@@"]);
    assert_eq!(kv, vec![("a".to_string(), "b".to_string())]);
}

#[test]
fn at_sign_mid_line_is_not_a_key() {
    let kv = parse_all(&[b"x @a@b@@\n"]);
    assert!(kv.is_empty());
}

#[test]
fn carriage_return_starts_a_line() {
    let kv = parse_all(&[b"x\r@k@v@@"]);
    assert_eq!(kv, vec![("k".to_string(), "v".to_string())]);
}

#[test]
fn chunking_does_not_change_items() {
    let text: &[u8] = b"/*\n@ct-default@ true @@\n@ct-help@ some help @@\n*/\n";
    let whole = parse_all(&[text]);
    for cut in 1..text.len() {
        let (a, b) = text.split_at(cut);
        assert_eq!(parse_all(&[a, b]), whole, "cut at {}", cut);
    }
    let bytes: Vec<&[u8]> = text.chunks(1).collect();
    assert_eq!(parse_all(&bytes), whole);
    assert_eq!(whole.len(), 2);
}

#[test]
fn single_at_in_value_stays_in_value() {
    let kv = parse_all(&[b"@k@a@b@@"]);
    assert_eq!(kv, vec![("k".to_string(), "a@b".to_string())]);
}

#[test]
fn lone_at_with_spaces_stays_in_value() {
    let kv = parse_all(&[b"@k@ a@b @@"]);
    assert_eq!(kv, vec![("k".to_string(), "a@b".to_string())]);
}

#[test]
fn lone_at_split_across_chunks_stays_in_value() {
    let kv = parse_all(&[b"@k@ a@", b"b @", b"@\n"]);
    assert_eq!(kv, vec![("k".to_string(), "a@b".to_string())]);
}

#[test]
fn parse_items_are_trimmed_and_keys_have_no_at() {
    let mut parser = AtAtParser::new();
    let items = parser.parse(b"@ key @ value with @ inside \t@@\n").unwrap();
    let kv = key_values(&items);
    assert_eq!(kv, vec![("key".to_string(), "value with @ inside".to_string())]);
    for (k, v) in kv {
        assert_eq!(k.trim(), k);
        assert_eq!(v.trim(), v);
        assert!(!k.contains('@'));
    }
}

#[test]
fn data_items_pass_the_input_through() {
    let mut parser = AtAtParser::new();
    let items = parser.parse(b"abc\n@k@v@@").unwrap();
    match &items[0] {
        AtAtParseItem::Data(d) => assert_eq!(d.as_slice(), b"abc\n@k@v@@"),
        _ => panic!("first item is not data"),
    }
    assert_eq!(items.len(), 2);
}

#[test]
fn end_of_input_is_final() {
    let mut parser = AtAtParser::new();
    assert!(parser.parse(b"").is_none());
    assert!(parser.parse(b"@a@b@@").is_none());
}

#[test]
fn invalid_utf8_is_replaced() {
    let kv = parse_all(&[b"@k\xff@v@@"]);
    assert_eq!(kv, vec![("k\u{fffd}".to_string(), "v".to_string())]);
}

#[test]
fn unicode_whitespace_is_trimmed() {
    let kv = parse_all(&["@k@\u{a0}v\u{3000}@@".as_bytes()]);
    assert_eq!(kv, vec![("k".to_string(), "v".to_string())]);
}
