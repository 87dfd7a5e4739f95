use netlab::packet::{MyPacket, DELIMITER, HS1, HS2, HS3, TIM};

fn pairs(packets: &[MyPacket]) -> Vec<(u8, Vec<u8>)> {
    packets.iter().map(|p| (p.code, p.content.clone())).collect()
}

#[test]
fn test_from() {
    let data: Vec<u8> = vec![200, 115, 114, 113, 255];
    println!("{:?}", MyPacket::from_single(data.as_slice()));
    println!("{:?}", MyPacket::from(data.as_slice()));
    let one = MyPacket::from_single(data.as_slice()).unwrap();
    assert_eq!((one.code, one.content), (200, vec![115, 114, 113]));
    assert_eq!(
        pairs(&MyPacket::from(data.as_slice()).unwrap()),
        vec![(200, vec![115, 114, 113])]
    );

    let data: Vec<u8> = vec![200, 255];
    println!("{:?}", MyPacket::from_single(data.as_slice()));
    println!("{:?}", MyPacket::from(data.as_slice()));
    let one = MyPacket::from_single(data.as_slice()).unwrap();
    assert_eq!((one.code, one.content), (200, vec![]));

    let data: Vec<u8> = vec![200, 255, 204, 255, 127, 100, 122, 33, 255];
    println!("{:?}", MyPacket::from(data.as_slice()));
    let pkts = MyPacket::from(data.as_slice()).unwrap();
    assert_eq!(
        pairs(&pkts),
        vec![(200, vec![]), (204, vec![]), (127, vec![100, 122, 33])]
    );
    let mut bytes = Vec::new();
    for pkt in pkts {
        bytes.push(pkt.to_vec());
    }
    println!("{:?}", bytes);
    assert_eq!(
        bytes,
        vec![vec![200, 255], vec![204, 255], vec![127, 100, 122, 33, 255]]
    );
    println!(
        "convert to and back: \n{:?}",
        MyPacket::from(data.as_slice())
    );
}

#[test]
fn test_with() {
    println!("{:?}", MyPacket::with_data(vec![1, 2, 3, 4, 5], 102));
    let p = MyPacket::with_data(vec![1, 2, 3, 4, 5], 102);
    assert_eq!(p.code, 102);
    assert_eq!(p.content, vec![1, 2, 3, 4, 5]);
}

#[test]
fn packet_test_time() {
    let p = MyPacket::with_now();
    println!("{:?}", p);
    println!("{:?}", String::from_utf8_lossy(p.content.as_ref()));
    assert_eq!(p.code, TIM);
    let text = String::from_utf8(p.content.clone()).unwrap();
    assert!(text.len() >= 19);
    assert!(text.chars().take(4).all(|c| c.is_ascii_digit()));
    assert!(!p.content.contains(&DELIMITER));
}

#[test]
fn control_codes_are_fixed() {
    assert_eq!((HS1, HS2, HS3, TIM), (200, 201, 202, 203));
    assert_eq!(DELIMITER, 0xFF);
}

#[test]
fn with_code_has_no_content() {
    let p = MyPacket::with_code(HS1);
    assert_eq!(p.code, 200);
    assert!(p.content.is_empty());
    assert_eq!(p.to_vec(), vec![200, 255]);
}

#[test]
fn empty_datagram_is_rejected() {
    let r = MyPacket::from(&[]);
    assert_eq!(r.unwrap_err(), "Empty data is not allow to construct a packet");
}

#[test]
fn frame_without_code_is_rejected() {
    assert_eq!(MyPacket::from(&[255]).unwrap_err(), "Wrong data format");
    assert_eq!(MyPacket::from(&[1, 255, 255]).unwrap_err(), "Wrong data format");
    assert_eq!(
        MyPacket::from(&[1, 2, 255, 255, 3, 255]).unwrap_err(),
        "Wrong data format"
    );
}

#[test]
fn single_frame_needs_code_and_delimiter() {
    assert_eq!(MyPacket::from_single(&[]).unwrap_err(), "Wrong data format");
    assert_eq!(MyPacket::from_single(&[255]).unwrap_err(), "Wrong data format");
    assert_eq!(MyPacket::from_single(&[1, 2]).unwrap_err(), "Wrong data format");
    let p = MyPacket::from_single(&[1, 255, 2, 255]).unwrap();
    assert_eq!((p.code, p.content), (1, vec![255, 2]));
}

#[test]
fn code_without_delimiter_is_rejected() {
    assert_eq!(MyPacket::from(&[5]).unwrap_err(), "Wrong data format");
    assert_eq!(MyPacket::from(&[7, 8, 255, 9]).unwrap_err(), "Wrong data format");
    assert_eq!(MyPacket::from(&[7, 255, 8, 255, 9]).unwrap_err(), "Wrong data format");
}

#[test]
fn bytes_behind_the_last_delimiter_are_dropped() {
    assert_eq!(pairs(&MyPacket::from(&[1, 2, 3]).unwrap()), vec![]);
    assert_eq!(
        pairs(&MyPacket::from(&[7, 8, 255, 9, 9]).unwrap()),
        vec![(7, vec![8])]
    );
}

#[test]
fn decoding_undoes_encoding() {
    let packets = vec![
        MyPacket::with_data(vec![0, 1, 2, 254], 0),
        MyPacket::with_code(HS2),
        MyPacket::with_data(vec![254; 1024], 99),
        MyPacket::with_code(150),
    ];
    let mut bytes = Vec::new();
    for p in &packets {
        bytes.extend(p.to_vec());
    }
    let back = MyPacket::from(&bytes).unwrap();
    assert_eq!(pairs(&back), pairs(&packets));
}

#[test]
fn delimiter_in_content_splits_the_frame() {
    let p = MyPacket::with_data(vec![1, 255, 2], 5);
    let back = MyPacket::from(&p.to_vec()).unwrap();
    assert_eq!(pairs(&back), vec![(5, vec![1]), (2, vec![])]);
}

#[test]
fn clone_keeps_code_and_content() {
    let p = MyPacket::with_data(vec![9, 8, 7], 42);
    let q = p.clone();
    assert_eq!((q.code, q.content), (42, vec![9, 8, 7]));
}
