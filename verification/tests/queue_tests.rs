use netlab::config::Config;
use netlab::connect::Connection;
use netlab::packet::MyPacket;
use netlab::queue::{acknowledge, evict, expire, launch, process_acks, update_queue, CHUNK};
use netlab::stage::{cycle_less_than, SendStatus};
use std::collections::VecDeque;

type Queue = VecDeque<(MyPacket, SendStatus)>;

fn codes(queue: &Queue) -> Vec<u8> {
    queue.iter().map(|e| e.0.code).collect()
}

fn statuses(queue: &Queue) -> Vec<SendStatus> {
    queue.iter().map(|e| e.1).collect()
}

fn queue_of(entries: &[(u8, SendStatus)]) -> Queue {
    entries
        .iter()
        .map(|(code, status)| (MyPacket::with_data(vec![*code], *code), *status))
        .collect()
}

#[test]
fn test_update_queue() {
    let mut queue = VecDeque::new();
    let data: Vec<u8> = (0..30 * 1024).map(|i| (i % 251) as u8).collect();
    let cfg = Config {
        is_server: true,
        window: 10,
        seq_siz: 100,
        max_timeout: 10,
        single_timeout: 300,
        receive_rate: netlab::config::Rate { numerator: 4, denominator: 5 },
        send_rate: netlab::config::Rate { numerator: 1, denominator: 1 },
    };
    let mut seq = 0;
    let mut offset = 0;
    let mut expect_offset = 0;
    offset += update_queue(&mut queue, &data[offset..], &cfg, seq, &mut false);
    expect_offset += 1024 * 10;
    assert_eq!(queue.len(), 10);
    assert_eq!(offset, expect_offset);
    // won't update anything this time
    offset += update_queue(&mut queue, &data[offset..], &cfg, seq, &mut false);
    assert_eq!(queue.len(), 10);
    assert_eq!(offset, expect_offset);

    for _ in 0..3 {
        queue.pop_front();
    }
    offset += update_queue(&mut queue, &data[offset..], &cfg, seq, &mut false);
    expect_offset += 1024 * 3;
    assert_eq!(queue.len(), 10);
    assert_eq!(offset, expect_offset);

    for _ in 0..10 {
        queue.pop_front();
    }
    seq = 98;
    offset += update_queue(&mut queue, &data[offset..], &cfg, seq, &mut false);
    expect_offset += 1024 * 10;
    assert_eq!(queue.len(), 10);
    assert_eq!(offset, expect_offset);
    assert_eq!(queue.front().unwrap().0.code, 98);
    assert_eq!(queue.back().unwrap().0.code, 7);
}

#[test]
fn update_queue_cuts_the_data_into_chunks() {
    let cfg = Config::new();
    let data: Vec<u8> = (0..2500).map(|i| (i % 250) as u8).collect();
    let mut queue = VecDeque::new();
    let mut end = false;
    let count = update_queue(&mut queue, &data, &cfg, 5, &mut end);
    assert_eq!(CHUNK, 1024);
    assert_eq!(count, 2500);
    assert_eq!(codes(&queue), vec![5, 6, 7, 8]);
    assert_eq!(queue[0].0.content, data[0..1024].to_vec());
    assert_eq!(queue[1].0.content, data[1024..2048].to_vec());
    assert_eq!(queue[2].0.content, data[2048..2500].to_vec());
    assert!(queue[3].0.content.is_empty());
    assert_eq!(statuses(&queue), vec![SendStatus::Ready; 4]);
    assert!(end);
    // nothing is left and the marker is queued only once
    let count = update_queue(&mut queue, &data[2500..], &cfg, 5, &mut end);
    assert_eq!(count, 0);
    assert_eq!(queue.len(), 4);
}

#[test]
fn update_queue_of_no_data_queues_the_marker() {
    let cfg = Config::new();
    let mut queue = VecDeque::new();
    let mut end = false;
    assert_eq!(update_queue(&mut queue, &[], &cfg, 99, &mut end), 0);
    assert_eq!(codes(&queue), vec![99]);
    assert!(queue[0].0.content.is_empty());
    assert!(end);
}

#[test]
fn update_queue_marker_waits_for_room() {
    let mut cfg = Config::new();
    cfg.window = 2;
    cfg.seq_siz = 10;
    let data = vec![7u8; 2048];
    let mut queue = VecDeque::new();
    let mut end = false;
    assert_eq!(update_queue(&mut queue, &data, &cfg, 9, &mut end), 2048);
    assert_eq!(codes(&queue), vec![9, 0]);
    assert!(!end);
    queue.pop_front();
    assert_eq!(update_queue(&mut queue, &[], &cfg, 0, &mut end), 0);
    assert_eq!(codes(&queue), vec![0, 1]);
    assert!(queue[1].0.content.is_empty());
    assert!(end);
}

#[test]
fn update_queue_marker_number_wraps() {
    let cfg = Config::new();
    let data = vec![1u8; 10];
    let mut queue = VecDeque::new();
    let mut end = false;
    assert_eq!(update_queue(&mut queue, &data, &cfg, 99, &mut end), 10);
    assert_eq!(codes(&queue), vec![99, 0]);
    assert!(end);
}

#[test]
fn expire_makes_old_entries_ready() {
    let mut cfg = Config::new();
    cfg.single_timeout = 100;
    let mut queue = queue_of(&[
        (1, SendStatus::OnFly(0)),
        (2, SendStatus::OnFly(400)),
        (3, SendStatus::OnFly(399)),
        (4, SendStatus::Ready),
        (5, SendStatus::Acked),
        (6, SendStatus::OnFly(900)),
    ]);
    expire(&mut queue, &cfg, 500);
    assert_eq!(codes(&queue), vec![1, 2, 3, 4, 5, 6]);
    assert_eq!(
        statuses(&queue),
        vec![
            SendStatus::Ready,
            SendStatus::OnFly(400),
            SendStatus::Ready,
            SendStatus::Ready,
            SendStatus::Acked,
            SendStatus::OnFly(900),
        ]
    );
}

#[test]
fn launch_sends_the_ready_entries() {
    let mut queue = queue_of(&[
        (1, SendStatus::Ready),
        (2, SendStatus::OnFly(3)),
        (3, SendStatus::Acked),
        (4, SendStatus::Ready),
    ]);
    let batch = launch(&mut queue, 77);
    let sent: Vec<(u8, Vec<u8>)> = batch.iter().map(|p| (p.code, p.content.clone())).collect();
    assert_eq!(sent, vec![(1, vec![1]), (4, vec![4])]);
    assert_eq!(
        statuses(&queue),
        vec![
            SendStatus::OnFly(77),
            SendStatus::OnFly(3),
            SendStatus::Acked,
            SendStatus::OnFly(77),
        ]
    );
    assert!(launch(&mut queue, 78).is_empty());
}

#[test]
fn acknowledge_marks_the_first_entry_in_flight_with_the_number() {
    let mut queue = queue_of(&[
        (1, SendStatus::Acked),
        (2, SendStatus::Ready),
        (3, SendStatus::OnFly(0)),
        (4, SendStatus::OnFly(0)),
        (4, SendStatus::OnFly(1)),
    ]);
    acknowledge(&mut queue, 4, false);
    assert_eq!(
        statuses(&queue),
        vec![
            SendStatus::Acked,
            SendStatus::Ready,
            SendStatus::OnFly(0),
            SendStatus::Acked,
            SendStatus::OnFly(1),
        ]
    );
    // an entry that is not in flight is not acknowledged
    acknowledge(&mut queue, 2, false);
    assert_eq!(queue[1].1, SendStatus::Ready);
    // no entry carries the number
    acknowledge(&mut queue, 9, false);
    assert_eq!(queue[2].1, SendStatus::OnFly(0));
}

#[test]
fn acknowledge_behind_the_window_stops_at_the_first_entry_in_flight() {
    let mut queue = queue_of(&[
        (1, SendStatus::Ready),
        (2, SendStatus::OnFly(0)),
        (3, SendStatus::OnFly(0)),
    ]);
    acknowledge(&mut queue, 3, true);
    assert_eq!(
        statuses(&queue),
        vec![SendStatus::Ready, SendStatus::OnFly(0), SendStatus::OnFly(0)]
    );
    acknowledge(&mut queue, 2, true);
    assert_eq!(
        statuses(&queue),
        vec![SendStatus::Ready, SendStatus::Acked, SendStatus::OnFly(0)]
    );
}

#[test]
fn process_acks_reads_only_the_ack_range() {
    let mut cfg = Config::new();
    cfg.seq_siz = 10;
    cfg.window = 5;
    let mut queue = queue_of(&[
        (8, SendStatus::OnFly(0)),
        (9, SendStatus::OnFly(0)),
        (0, SendStatus::OnFly(0)),
        (1, SendStatus::OnFly(0)),
    ]);
    let received = vec![
        MyPacket::with_code(9),
        MyPacket::with_code(10),
        MyPacket::with_code(20),
        MyPacket::with_code(200),
        MyPacket::with_code(19),
    ];
    process_acks(&mut queue, &received, 8, &cfg);
    assert_eq!(
        statuses(&queue),
        vec![
            SendStatus::OnFly(0),
            SendStatus::Acked,
            SendStatus::Acked,
            SendStatus::OnFly(0),
        ]
    );
}

#[test]
fn stale_ack_marks_nothing() {
    let mut cfg = Config::new();
    cfg.seq_siz = 10;
    cfg.window = 5;
    // 7 lies one step behind the base 8; the entry that carries 7 is a later one
    let mut queue = queue_of(&[(8, SendStatus::OnFly(0)), (7, SendStatus::OnFly(0))]);
    assert!(cycle_less_than(7, 8, &cfg));
    process_acks(&mut queue, &vec![MyPacket::with_code(17)], 8, &cfg);
    assert_eq!(statuses(&queue), vec![SendStatus::OnFly(0), SendStatus::OnFly(0)]);
}

#[test]
fn evict_removes_only_the_acknowledged_front() {
    let mut cfg = Config::new();
    cfg.seq_siz = 10;
    cfg.window = 5;
    let mut conn = Connection::new(&cfg);
    conn.seq = 8;
    conn.timeout = 3;
    let mut queue = queue_of(&[
        (8, SendStatus::Acked),
        (9, SendStatus::Acked),
        (0, SendStatus::Acked),
        (1, SendStatus::OnFly(0)),
        (2, SendStatus::Acked),
    ]);
    evict(&mut queue, &mut conn, &cfg);
    assert_eq!(codes(&queue), vec![1, 2]);
    assert_eq!(statuses(&queue), vec![SendStatus::OnFly(0), SendStatus::Acked]);
    assert_eq!(conn.seq, 1);
    assert_eq!(conn.timeout, 3);
    evict(&mut queue, &mut conn, &cfg);
    assert_eq!(codes(&queue), vec![1, 2]);
    assert_eq!(conn.seq, 1);
    queue[0].1 = SendStatus::Acked;
    evict(&mut queue, &mut conn, &cfg);
    assert!(queue.is_empty());
    assert_eq!(conn.seq, 3);
}

#[test]
fn window_edges() {
    let cfg = Config::new();
    assert!(cycle_less_than(95, 5, &cfg));
    assert!(!cycle_less_than(84, 5, &cfg));
    assert!(!cycle_less_than(94, 5, &cfg));
    assert!(cycle_less_than(96, 5, &cfg));
    assert!(cycle_less_than(4, 5, &cfg));
    assert!(cycle_less_than(0, 5, &cfg));
    assert!(cycle_less_than(99, 5, &cfg));
    assert!(!cycle_less_than(5, 5, &cfg));
    assert!(!cycle_less_than(6, 5, &cfg));
    assert!(cycle_less_than(40, 50, &cfg));
    assert!(!cycle_less_than(39, 50, &cfg));
    assert!(!cycle_less_than(50, 50, &cfg));
    let mut small = Config::new();
    small.seq_siz = 10;
    small.window = 5;
    assert!(cycle_less_than(8, 3, &small));
    assert!(!cycle_less_than(7, 3, &small));
    assert!(!cycle_less_than(3, 3, &small));
}
