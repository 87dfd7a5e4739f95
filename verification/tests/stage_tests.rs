use netlab::config::Config;
use netlab::connect::{Connection, RecvRes};
use netlab::packet::{MyPacket, HS1, HS2, HS3, TIM};
use netlab::stage::{
    handle_break, stage0, stage0_command, stage1, stage2, stage2_begin, stage3, stage4, stage5,
    stage6, InvalidUtf8, SendStatus, Step,
};
use std::collections::{HashMap, VecDeque};

fn sent(step: &Step) -> Vec<(u8, Vec<u8>)> {
    step.send.iter().map(|p| (p.code, p.content.clone())).collect()
}

fn get(codes: &[u8]) -> RecvRes {
    RecvRes::Get(codes.iter().map(|c| MyPacket::with_code(*c)).collect())
}

fn fresh() -> (Config, Connection) {
    let cfg = Config::new();
    let conn = Connection::new(&cfg);
    (cfg, conn)
}

#[test]
fn test_stage0() {
    let (_cfg, mut con) = fresh();
    // 1. a handshake request is agreed to
    let step = stage0(&mut con, get(&[HS1]));
    assert_eq!(step.next, 1);
    assert_eq!(sent(&step), vec![(HS2, vec![])]);
    // 2. a time query is answered
    let step = stage0(&mut con, get(&[TIM]));
    assert_eq!(step.next, 6);
    assert_eq!(step.send.len(), 1);
    assert_eq!(step.send[0].code, TIM);
    assert!(!step.send[0].content.is_empty());
    assert!(!step.send[0].content.contains(&255));
    assert!(String::from_utf8(step.send[0].content.clone()).is_ok());
    // 3. anything else is dropped
    let step = stage0(&mut con, get(&[210]));
    assert_eq!(step.next, 0);
    assert!(step.send.is_empty());
    // 4. the command time
    let step = stage0_command("time").unwrap();
    assert_eq!(step.next, 5);
    assert_eq!(sent(&step), vec![(TIM, vec![])]);
    // 5. the command send
    let step = stage0_command("send").unwrap();
    assert_eq!(step.next, 3);
    assert_eq!(sent(&step), vec![(HS1, vec![])]);
}

#[test]
fn idle_commands() {
    assert!(stage0_command("quit").is_none());
    let step = stage0_command("sned").unwrap();
    assert_eq!(step.next, 0);
    assert!(step.send.is_empty());
    let step = stage0_command("").unwrap();
    assert_eq!(step.next, 0);
    assert!(stage0_command("quit ").is_some());
}

#[test]
fn idle_does_not_count_timeouts() {
    let (_cfg, mut con) = fresh();
    con.timeout = 4;
    con.seq = 9;
    let step = stage0(&mut con, RecvRes::Timeout);
    assert_eq!((step.next, step.send.len()), (0, 0));
    assert_eq!((con.timeout, con.seq), (4, 9));
    let step = stage0(&mut con, RecvRes::Break);
    assert_eq!((step.next, step.send.len()), (0, 0));
    assert_eq!((con.timeout, con.seq), (4, 9));
    // the last packet decides, and a delivery sets the count back
    let step = stage0(&mut con, get(&[HS1, 7]));
    assert_eq!(step.next, 0);
    assert_eq!((con.timeout, con.seq), (0, 9));
    let step = stage0(&mut con, get(&[7, HS1]));
    assert_eq!(step.next, 1);
    let step = stage0(&mut con, RecvRes::Get(Vec::new()));
    assert_eq!(step.next, 0);
}

#[test]
fn break_resets_the_session() {
    let (_cfg, mut con) = fresh();
    con.timeout = 14;
    con.seq = 37;
    con.est = true;
    assert_eq!(handle_break(&mut con), 0);
    assert_eq!((con.timeout, con.seq, con.est), (0, 0, false));
    assert_eq!((con.local_port, con.remote_port), (6500, 6501));
}

#[test]
fn responder_handshake() {
    let (_cfg, mut con) = fresh();
    let step = stage1(&mut con, RecvRes::Timeout);
    assert_eq!(step.next, 1);
    assert_eq!(sent(&step), vec![(HS2, vec![])]);
    assert_eq!(con.timeout, 1);
    let step = stage1(&mut con, get(&[HS3]));
    assert_eq!((step.next, step.send.len()), (2, 0));
    assert_eq!(con.timeout, 0);
    let step = stage1(&mut con, get(&[HS1]));
    assert_eq!((step.next, step.send.len()), (0, 0));
    con.timeout = 5;
    con.seq = 3;
    let step = stage1(&mut con, RecvRes::Break);
    assert_eq!((step.next, step.send.len()), (0, 0));
    assert_eq!((con.timeout, con.seq, con.est), (0, 0, false));
}

#[test]
fn initiator_handshake() {
    let (_cfg, mut con) = fresh();
    let step = stage3(&mut con, RecvRes::Timeout);
    assert_eq!(step.next, 3);
    assert_eq!(sent(&step), vec![(HS1, vec![])]);
    assert_eq!(con.timeout, 1);
    let step = stage3(&mut con, get(&[HS2]));
    assert_eq!(step.next, 4);
    assert_eq!(sent(&step), vec![(HS3, vec![])]);
    assert_eq!(con.timeout, 0);
    let step = stage3(&mut con, get(&[HS3]));
    assert_eq!((step.next, step.send.len()), (0, 0));
    let step = stage3(&mut con, RecvRes::Break);
    assert_eq!((step.next, step.send.len()), (0, 0));
}

#[test]
fn sender_cycle_begins_with_a_batch() {
    let mut cfg = Config::new();
    cfg.single_timeout = 100;
    let mut queue: VecDeque<(MyPacket, SendStatus)> = VecDeque::new();
    // an empty queue leads back to idle, and nothing is sent
    let step = stage2_begin(&cfg, &mut queue, 5);
    assert_eq!((step.next, step.send.len()), (0, 0));
    assert!(queue.is_empty());
    queue.push_back((MyPacket::with_data(vec![1], 0), SendStatus::Ready));
    queue.push_back((MyPacket::with_data(vec![2], 1), SendStatus::OnFly(0)));
    queue.push_back((MyPacket::with_data(vec![3], 2), SendStatus::OnFly(450)));
    queue.push_back((MyPacket::with_data(vec![4], 3), SendStatus::Acked));
    let step = stage2_begin(&cfg, &mut queue, 500);
    assert_eq!(step.next, 2);
    assert_eq!(sent(&step), vec![(0, vec![1]), (1, vec![2])]);
    let statuses: Vec<SendStatus> = queue.iter().map(|e| e.1).collect();
    assert_eq!(
        statuses,
        vec![
            SendStatus::OnFly(500),
            SendStatus::OnFly(500),
            SendStatus::OnFly(450),
            SendStatus::Acked
        ]
    );
    // nothing is ready: the batch is empty, the transfer goes on
    let step = stage2_begin(&cfg, &mut queue, 501);
    assert_eq!((step.next, step.send.len()), (2, 0));
}

#[test]
fn sender_cycle_ends_with_the_acknowledgements() {
    let mut cfg = Config::new();
    cfg.seq_siz = 10;
    cfg.window = 5;
    let mut conn = Connection::new(&cfg);
    conn.seq = 8;
    let mut queue: VecDeque<(MyPacket, SendStatus)> = [8u8, 9, 0, 1]
        .iter()
        .map(|c| (MyPacket::with_data(vec![*c], *c), SendStatus::OnFly(0)))
        .collect();
    // 9 and 8 are acknowledged, 0 is not: two entries leave
    assert_eq!(stage2(&mut conn, &cfg, &mut queue, get(&[19, 18, 11])), 2);
    let codes: Vec<u8> = queue.iter().map(|e| e.0.code).collect();
    assert_eq!(codes, vec![0, 1]);
    assert_eq!(queue[0].1, SendStatus::OnFly(0));
    assert_eq!(queue[1].1, SendStatus::Acked);
    assert_eq!((conn.seq, conn.timeout), (0, 0));
    // a timeout is counted and moves nothing
    assert_eq!(stage2(&mut conn, &cfg, &mut queue, RecvRes::Timeout), 2);
    assert_eq!((conn.seq, conn.timeout, queue.len()), (0, 1, 2));
    assert_eq!(stage2(&mut conn, &cfg, &mut queue, get(&[10])), 2);
    assert!(queue.is_empty());
    assert_eq!((conn.seq, conn.timeout), (2, 0));
    // the queue is empty: the next cycle leads back to idle and changes nothing
    assert_eq!(stage2_begin(&cfg, &mut queue, 9).next, 0);
    conn.timeout = 4;
    conn.est = true;
    assert_eq!(stage2(&mut conn, &cfg, &mut queue, RecvRes::Timeout), 0);
    assert_eq!(stage2(&mut conn, &cfg, &mut queue, get(&[12])), 0);
    assert_eq!(stage2(&mut conn, &cfg, &mut queue, RecvRes::Break), 0);
    assert_eq!((conn.seq, conn.timeout, conn.est), (2, 4, true));
    assert!(queue.is_empty());
    // a break resets the session and leaves the queue
    queue.push_back((MyPacket::with_code(2), SendStatus::Acked));
    assert_eq!(stage2(&mut conn, &cfg, &mut queue, RecvRes::Break), 0);
    assert_eq!((conn.seq, conn.timeout, queue.len()), (0, 0, 1));
}

#[test]
fn receiver_cycle_stores_acknowledges_and_drains() {
    let mut cfg = Config::new();
    cfg.seq_siz = 10;
    cfg.window = 5;
    let mut conn = Connection::new(&cfg);
    conn.seq = 8;
    let mut map: HashMap<u8, Vec<u8>> = HashMap::new();
    // out of order: 9 is buffered, nothing is delivered yet
    let recv = RecvRes::Get(vec![MyPacket::with_data(vec![9, 9], 9)]);
    let (step, chunks) = stage4(&mut conn, &cfg, &mut map, recv);
    assert_eq!(step.next, 4);
    assert_eq!(sent(&step), vec![(19, vec![])]);
    assert!(chunks.is_empty());
    assert_eq!((conn.seq, conn.est, conn.timeout), (8, true, 0));
    // 8 and 0 arrive: 8, 9, 0 leave the buffer in order
    let recv = RecvRes::Get(vec![
        MyPacket::with_data(vec![0], 0),
        MyPacket::with_code(HS2),
        MyPacket::with_data(vec![8], 8),
    ]);
    let (step, chunks) = stage4(&mut conn, &cfg, &mut map, recv);
    assert_eq!(step.next, 4);
    assert_eq!(sent(&step), vec![(10, vec![]), (18, vec![])]);
    assert_eq!(chunks, vec![vec![8], vec![9, 9], vec![0]]);
    assert_eq!(conn.seq, 1);
    assert_eq!(map.len(), 1);
    assert!(map.contains_key(&HS2));
    // the end-of-stream marker ends the transfer; the number stays
    let recv = RecvRes::Get(vec![MyPacket::with_code(1)]);
    let (step, chunks) = stage4(&mut conn, &cfg, &mut map, recv);
    assert_eq!(step.next, 0);
    assert_eq!(sent(&step), vec![(11, vec![])]);
    assert!(chunks.is_empty());
    assert_eq!(conn.seq, 1);
    assert!(!map.contains_key(&1));
}

#[test]
fn receiver_repeats_the_confirmation_until_data_arrives() {
    let (cfg, mut conn) = fresh();
    let mut map: HashMap<u8, Vec<u8>> = HashMap::new();
    let (step, chunks) = stage4(&mut conn, &cfg, &mut map, RecvRes::Timeout);
    assert_eq!(step.next, 4);
    assert_eq!(sent(&step), vec![(HS3, vec![])]);
    assert!(chunks.is_empty());
    assert_eq!(conn.timeout, 1);
    conn.est = true;
    let (step, _) = stage4(&mut conn, &cfg, &mut map, RecvRes::Timeout);
    assert_eq!((step.next, step.send.len()), (4, 0));
    assert_eq!(conn.timeout, 2);
    let (step, _) = stage4(&mut conn, &cfg, &mut map, RecvRes::Break);
    assert_eq!((step.next, step.send.len()), (0, 0));
    assert_eq!((conn.timeout, conn.seq, conn.est), (0, 0, false));
}

#[test]
fn time_request_shows_the_answer() {
    let (_cfg, mut conn) = fresh();
    let (step, text) = stage5(&mut conn, RecvRes::Timeout).unwrap();
    assert_eq!(step.next, 5);
    assert_eq!(sent(&step), vec![(TIM, vec![])]);
    assert!(text.is_none());
    assert_eq!(conn.timeout, 1);
    let answer = MyPacket::with_data("2023-10-21 08:59:19".as_bytes().to_vec(), TIM);
    let recv = RecvRes::Get(vec![MyPacket::with_code(HS1), answer]);
    let (step, text) = stage5(&mut conn, recv).unwrap();
    assert_eq!((step.next, step.send.len()), (0, 0));
    assert_eq!(text.unwrap(), "2023-10-21 08:59:19");
    assert_eq!(conn.timeout, 0);
    let (step, text) = stage5(&mut conn, get(&[HS2])).unwrap();
    assert_eq!((step.next, step.send.len()), (5, 0));
    assert!(text.is_none());
    let (step, _) = stage5(&mut conn, RecvRes::Break).unwrap();
    assert_eq!(step.next, 0);
}

#[test]
fn time_answer_that_is_no_text_fails() {
    let (_cfg, mut conn) = fresh();
    conn.timeout = 3;
    let recv = RecvRes::Get(vec![MyPacket::with_data(vec![0xC3, 0x28], TIM)]);
    assert_eq!(stage5(&mut conn, recv).unwrap_err(), InvalidUtf8);
    assert_eq!(conn.timeout, 0);
}

#[test]
fn time_respond_answers_each_query() {
    let (_cfg, mut conn) = fresh();
    let r = stage6(&mut conn, get(&[TIM, HS1, TIM]));
    assert_eq!(r.next, 6);
    assert_eq!(r.replies.len(), 2);
    for p in &r.replies {
        assert_eq!(p.code, TIM);
        assert!(!p.content.is_empty());
        assert!(!p.content.contains(&255));
        assert!(String::from_utf8(p.content.clone()).is_ok());
    }
    let r = stage6(&mut conn, get(&[HS1]));
    assert_eq!((r.next, r.replies.len()), (6, 0));
    let r = stage6(&mut conn, RecvRes::Timeout);
    assert_eq!((r.next, r.replies.len()), (6, 0));
    assert_eq!(conn.timeout, 1);
    let r = stage6(&mut conn, RecvRes::Break);
    assert_eq!((r.next, r.replies.len()), (0, 0));
    assert_eq!(conn.timeout, 0);
}

#[test]
fn cycle_without_loss_empties_the_queue() {
    let mut cfg = Config::new();
    cfg.seq_siz = 10;
    cfg.window = 9;
    let mut conn = Connection::new(&cfg);
    conn.seq = 7;
    conn.timeout = 3;
    let mut queue: VecDeque<(MyPacket, SendStatus)> = (0..9u8)
        .map(|i| (MyPacket::with_data(vec![i + 1], (7 + i) % 10), SendStatus::Ready))
        .collect();
    let step = stage2_begin(&cfg, &mut queue, 40);
    assert_eq!(step.next, 2);
    let expected: Vec<(u8, Vec<u8>)> = (0..9u8).map(|i| ((7 + i) % 10, vec![i + 1])).collect();
    assert_eq!(sent(&step), expected);
    assert!(queue.iter().all(|e| e.1 == SendStatus::OnFly(40)));
    let acks: Vec<u8> = (0..9u8).map(|i| (7 + i) % 10 + 10).collect();
    assert_eq!(stage2(&mut conn, &cfg, &mut queue, get(&acks)), 2);
    assert!(queue.is_empty());
    assert_eq!((conn.seq, conn.timeout), (6, 0));
    let step = stage2_begin(&cfg, &mut queue, 41);
    assert_eq!((step.next, step.send.len()), (0, 0));
}

#[test]
fn chunks_delivered_in_any_order_leave_in_stream_order() {
    let mut cfg = Config::new();
    cfg.seq_siz = 10;
    cfg.window = 5;
    let mut conn = Connection::new(&cfg);
    conn.seq = 8;
    let mut map: HashMap<u8, Vec<u8>> = HashMap::new();
    let chunk = |place: u8| vec![100 + place, place];
    let order = [3u8, 0, 4, 1, 3, 2, 0];
    let recv = RecvRes::Get(
        order
            .iter()
            .map(|place| MyPacket::with_data(chunk(*place), (8 + place) % 10))
            .collect(),
    );
    let (step, chunks) = stage4(&mut conn, &cfg, &mut map, recv);
    assert_eq!(step.next, 4);
    let acks: Vec<u8> = step.send.iter().map(|p| p.code).collect();
    assert_eq!(acks, vec![11, 18, 12, 19, 11, 10, 18]);
    assert_eq!(chunks, (0..5u8).map(chunk).collect::<Vec<_>>());
    assert_eq!(conn.seq, 3);
    assert!(map.is_empty());
}
