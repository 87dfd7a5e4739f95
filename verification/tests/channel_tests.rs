use netlab::config::{Config, Rate};
use netlab::connect::{
    apply_loss, draw_mask, keep_selected, try_recv, try_recv_lossy, try_send, try_send_kept,
    try_send_lossy, Connection, RecvRes, CLIENT_PORT, SERVER_PORT,
};
use netlab::packet::MyPacket;

fn pairs(packets: &[MyPacket]) -> Vec<(u8, Vec<u8>)> {
    packets.iter().map(|p| (p.code, p.content.clone())).collect()
}

fn got(r: RecvRes) -> Vec<(u8, Vec<u8>)> {
    match r {
        RecvRes::Get(packets) => pairs(&packets),
        other => panic!("expected packets, got {:?}", other),
    }
}

#[test]
fn test_send() {
    let pkts = vec![
        MyPacket::with_code(200),
        MyPacket::with_data(vec![1, 3, 4], 12),
    ];
    let bytes = try_send(pkts.iter().collect()).unwrap();
    assert_eq!(bytes, vec![200, 255, 12, 1, 3, 4, 255]);
    let result = try_recv(Some(bytes.as_slice())).unwrap();
    println!("{:?}", result);
    assert_eq!(got(result), vec![(200, vec![]), (12, vec![1, 3, 4])]);
}

#[test]
fn connection_starts_on_the_ports_of_its_role() {
    let mut cfg = Config::new();
    let c = Connection::new(&cfg);
    assert_eq!((c.local_port, c.remote_port), (6500, 6501));
    assert_eq!((c.timeout, c.seq, c.est), (0, 0, false));
    cfg.is_server = false;
    let c = Connection::new(&cfg);
    assert_eq!((c.local_port, c.remote_port), (6501, 6500));
    assert_eq!((SERVER_PORT, CLIENT_PORT), (6500, 6501));
}

#[test]
fn sending_nothing_gives_no_datagram() {
    assert!(try_send(Vec::new()).is_none());
    let empty = MyPacket::with_code(0);
    assert_eq!(try_send(vec![&empty]), Some(vec![0, 255]));
}

#[test]
fn nothing_or_an_empty_datagram_is_a_timeout() {
    assert!(matches!(try_recv(None), Ok(RecvRes::Timeout)));
    assert!(matches!(try_recv(Some(&[])), Ok(RecvRes::Timeout)));
}

#[test]
fn malformed_datagram_is_an_error() {
    assert_eq!(try_recv(Some(&[255])).unwrap_err(), "Wrong data format");
    let cfg = Config::new();
    assert_eq!(
        try_recv_lossy(Some(&[5, 255, 255]), 0, &cfg).unwrap_err(),
        "Wrong data format"
    );
}

#[test]
fn kept_packets_follow_the_draws() {
    let pkts = vec![
        MyPacket::with_code(1),
        MyPacket::with_code(2),
        MyPacket::with_code(3),
        MyPacket::with_code(4),
    ];
    let keep = vec![true, false, false, true];
    assert_eq!(
        try_send_kept(pkts.iter().collect(), &keep),
        Some(vec![1, 255, 4, 255])
    );
    assert!(try_send_kept(pkts.iter().collect(), &vec![false; 4]).is_none());
    assert!(try_send_kept(Vec::new(), &Vec::new()).is_none());
    let rest = keep_selected(vec![10, 20, 30, 40], &keep);
    assert_eq!(rest, vec![10, 40]);
    assert_eq!(keep_selected(Vec::<u8>::new(), &Vec::new()), Vec::<u8>::new());
}

#[test]
fn timeout_breaks_the_session_at_the_last_tolerated_one() {
    let cfg = Config::new();
    let none: Vec<bool> = Vec::new();
    assert!(matches!(apply_loss(RecvRes::Timeout, &none, 0, &cfg), RecvRes::Timeout));
    assert!(matches!(apply_loss(RecvRes::Timeout, &none, 13, &cfg), RecvRes::Timeout));
    assert!(matches!(apply_loss(RecvRes::Timeout, &none, 14, &cfg), RecvRes::Break));
    assert!(matches!(apply_loss(RecvRes::Timeout, &none, 15, &cfg), RecvRes::Timeout));
    assert!(matches!(try_recv_lossy(None, 14, &cfg), Ok(RecvRes::Break)));
    assert!(matches!(try_recv_lossy(None, 3, &cfg), Ok(RecvRes::Timeout)));
}

#[test]
fn delivery_with_every_packet_dropped_is_a_timeout() {
    let cfg = Config::new();
    let pkts = vec![MyPacket::with_code(1), MyPacket::with_code(2)];
    let r = apply_loss(RecvRes::Get(pkts), &vec![false, false], 14, &cfg);
    assert!(matches!(r, RecvRes::Timeout));
    let pkts = vec![MyPacket::with_code(1), MyPacket::with_code(2)];
    let r = apply_loss(RecvRes::Get(pkts), &vec![false, true], 14, &cfg);
    assert_eq!(got(r), vec![(2, vec![])]);
}

#[test]
fn certain_rate_keeps_every_packet() {
    let always = Rate { numerator: 1, denominator: 1 };
    assert_eq!(draw_mask(50, always), vec![true; 50]);
    let pkts = vec![MyPacket::with_code(7), MyPacket::with_data(vec![1], 8)];
    assert_eq!(
        try_send_lossy(pkts.iter().collect(), always),
        Some(vec![7, 255, 8, 1, 255])
    );
    assert!(try_send_lossy(Vec::new(), always).is_none());
    let mut cfg = Config::new();
    cfg.receive_rate = always;
    let r = try_recv_lossy(Some(&[7, 255, 8, 1, 255]), 0, &cfg).unwrap();
    assert_eq!(got(r), vec![(7, vec![]), (8, vec![1])]);
}

#[test]
fn zero_rate_drops_every_packet() {
    let never = Rate { numerator: 0, denominator: 1 };
    assert_eq!(draw_mask(50, never), vec![false; 50]);
    let pkts = vec![MyPacket::with_code(7), MyPacket::with_data(vec![1], 8)];
    assert!(try_send_lossy(pkts.iter().collect(), never).is_none());
    let mut cfg = Config::new();
    cfg.receive_rate = never;
    let r = try_recv_lossy(Some(&[7, 255, 8, 1, 255]), 0, &cfg).unwrap();
    assert!(matches!(r, RecvRes::Timeout));
}

#[test]
fn partial_rate_keeps_a_subsequence() {
    let half = Rate { numerator: 1, denominator: 2 };
    let mask = draw_mask(2000, half);
    assert_eq!(mask.len(), 2000);
    let kept = mask.iter().filter(|k| **k).count();
    assert!(kept > 0 && kept < 2000);
    let pkts: Vec<MyPacket> = (0..100).map(MyPacket::with_code).collect();
    let bytes = try_send_lossy(pkts.iter().collect(), half).unwrap_or_default();
    let back = MyPacket::from(&bytes).map(|p| pairs(&p)).unwrap_or_default();
    let codes: Vec<u8> = back.iter().map(|p| p.0).collect();
    assert!(codes.windows(2).all(|w| w[0] < w[1]));
    assert!(codes.iter().all(|c| *c < 100));
}
