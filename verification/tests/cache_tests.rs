use netlab::connect_manager::{
    fresh_entry, read_cache, read_record, write_cahce, write_record, CacheEntry, RESPON_NAME,
};

fn plain(records: &[(String, CacheEntry)]) -> Vec<(String, Vec<u8>, String)> {
    records
        .iter()
        .map(|(k, e)| (k.clone(), e.content.clone(), e.time.clone()))
        .collect()
}

#[test]
fn test_get_store() {
    let mut map = Vec::new();
    let content = String::from("This is good");

    map.push((
        String::from("http://www.wenku8.net"),
        CacheEntry {
            content: content.into_bytes(),
            time: String::from("Pretend to be time"),
        },
    ));
    map.push((
        String::from("http://182.43.76.137"),
        CacheEntry {
            content: String::from("This is right").into_bytes(),
            time: String::from("pre to be time"),
        },
    ));
    println!("{:?}", map);
    let text = write_cahce(&map);
    assert_eq!(
        text,
        "aHR0cDovL3d3dy53ZW5rdTgubmV0 VGhpcyBpcyBnb29k UHJldGVuZCB0byBiZSB0aW1l\naHR0cDovLzE4Mi40My43Ni4xMzc= VGhpcyBpcyByaWdodA== cHJlIHRvIGJlIHRpbWU=\n"
    );
    println!("{:?}", read_cache(&text));
    assert_eq!(plain(&read_cache(&text)), plain(&map));
}

#[test]
fn test_only_read() {
    println!("{:?}", read_cache(""));
    assert!(read_cache("").is_empty());
    let text = "a2V5 AAECAw== dA==\nnot base64 here\nonly two\n\nazI= /w== dDI= extra words\n";
    let got = plain(&read_cache(text));
    assert_eq!(
        got,
        vec![
            (String::from("key"), vec![0, 1, 2, 3], String::from("t")),
            (String::from("k2"), vec![255], String::from("t2")),
        ]
    );
}

#[test]
fn record_lines() {
    let entry = CacheEntry { content: b"hello".to_vec(), time: String::from("now") };
    assert_eq!(write_record("k", &entry), "aw== aGVsbG8= bm93\n");
    let back = read_record("aw== aGVsbG8= bm93").unwrap();
    assert_eq!((back.0.as_str(), back.1.content, back.1.time.as_str()), ("k", b"hello".to_vec(), "now"));
    assert!(read_record("aw== aGVsbG8=").is_none());
    assert!(read_record("aw= aGVsbG8= bm93").is_none());
    assert!(read_record("aw== aGVsbG8 bm93").is_none());
    assert!(read_record("aw== aGVsbG8= bm9*").is_none());
    assert!(read_record("").is_none());
}

#[test]
fn name_that_is_no_text_is_read_with_replacements() {
    // the bytes ff 41 are no UTF-8
    let back = read_record("/0E= AA== /w==").unwrap();
    assert_eq!(back.0, "\u{fffd}A");
    assert_eq!(back.1.content, vec![0]);
    assert_eq!(back.1.time, "\u{fffd}");
}

#[test]
fn empty_part_does_not_come_back() {
    let entry = CacheEntry { content: Vec::new(), time: String::from("t") };
    let line = write_record("k", &entry);
    assert_eq!(line, "aw==  dA==\n");
    assert!(read_cache(&line).is_empty());
}

#[test]
fn fresh_entry_is_stamped() {
    let e = fresh_entry(&[1, 2, 3]);
    assert_eq!(e.content, vec![1, 2, 3]);
    assert!(e.time.ends_with(" GMT"));
    assert_eq!(e.time.len(), 29);
    let c = e.clone();
    assert_eq!((c.content, c.time), (e.content, e.time));
}

#[test]
fn answer_head_is_fixed() {
    assert!(RESPON_NAME.starts_with("HTTP/1.1 200 OK\r\nContent-Length: 4905\r\n"));
    assert!(RESPON_NAME.ends_with("Server: fishman\r\n\r\n"));
    assert_eq!(RESPON_NAME.len(), 135);
}
