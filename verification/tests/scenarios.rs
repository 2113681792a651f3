use pkt_udp::frame::{decode_header, Header};
use pkt_udp::packet::{data_frame, frame_count};
use pkt_udp::receiver::{Receiver, RecvError};
use pkt_udp::sender::{SendAction, Sender};
use std::collections::VecDeque;

fn ramp(len: usize) -> Vec<u8> {
    (0..len).map(|i| (i % 256) as u8).collect()
}

struct Report {
    packet: Vec<u8>,
    acks_sent: usize,
    frames_on_wire: usize,
    requests: Vec<u16>,
    timeouts: usize,
}

// Runs one packet from a sender to a receiver over a channel that loses
// the transmission `attempt` of frame `k` whenever `lose(k, attempt)` says so.
fn exchange(
    tx: &mut Sender,
    pkt: &[u8],
    lose: &mut dyn FnMut(u16, usize) -> bool,
) -> Result<Report, RecvError> {
    let count = frame_count(pkt.len() as u32) as usize;
    let mut attempts = vec![0usize; count];
    let mut wire: VecDeque<Vec<u8>> = VecDeque::new();
    let mut frames_on_wire: usize = 0;
    tx.begin(pkt);
    let mut k: u16 = 0;
    while let Some(frame) = tx.next_frame(pkt) {
        assert_eq!(decode_header(&frame).unwrap().frame_no, k);
        if !lose(k, attempts[k as usize]) {
            wire.push_back(frame);
            frames_on_wire += 1;
        }
        attempts[k as usize] += 1;
        k = k.wrapping_add(1);
    }
    assert_eq!(attempts.iter().filter(|n| **n == 1).count(), count);
    let first = wire.pop_front().expect("at least one frame must get through");
    let mut rx = Receiver::start(&first).expect("a frame of the packet opens the reception");
    let mut requests: Vec<u16> = Vec::new();
    let mut timeouts: usize = 0;
    while !rx.is_complete() {
        match wire.pop_front() {
            Some(frame) => rx.on_datagram(&frame),
            None => {
                timeouts += 1;
                for nack in rx.on_timeout()? {
                    let asked = decode_header(&nack).unwrap().frame_no;
                    requests.push(asked);
                    match tx.on_datagram(pkt, &nack) {
                        SendAction::Retransmit(frame) => {
                            if !lose(asked, attempts[asked as usize]) {
                                wire.push_back(frame);
                                frames_on_wire += 1;
                            }
                            attempts[asked as usize] += 1;
                        },
                        _ => panic!("a request must be answered"),
                    }
                }
            },
        }
    }
    let delivery = rx.finish();
    let mut acks_sent: usize = 0;
    assert!(matches!(tx.on_datagram(pkt, &delivery.ack), SendAction::Acked));
    acks_sent += 1;
    Ok(Report { packet: delivery.packet, acks_sent, frames_on_wire, requests, timeouts })
}

fn no_loss(_k: u16, _attempt: usize) -> bool {
    false
}

#[test]
fn no_loss_small_packet() {
    let pkt = ramp(513);
    assert_eq!(pkt[0], 0);
    assert_eq!(pkt[255], 255);
    assert_eq!(pkt[256], 0);
    assert_eq!(pkt[512], 0);
    let first = data_frame(1, &pkt, 0);
    let second = data_frame(1, &pkt, 1);
    assert_eq!(&first[14..], &pkt[0..512]);
    assert_eq!(second[14], pkt[512]);
    let mut tx = Sender::new();
    let report = exchange(&mut tx, &pkt, &mut no_loss).unwrap();
    assert_eq!(report.packet, pkt);
    assert_eq!(report.frames_on_wire, 2);
    assert_eq!(report.acks_sent, 1);
    assert_eq!(report.timeouts, 0);
    assert!(report.requests.is_empty());
}

#[test]
fn no_loss_exact_multiple() {
    let pkt = ramp(1024);
    let mut tx = Sender::new();
    let report = exchange(&mut tx, &pkt, &mut no_loss).unwrap();
    assert_eq!(report.packet, pkt);
    assert_eq!(report.frames_on_wire, 2);
    assert_eq!(&data_frame(1, &pkt, 0)[14..], &pkt[0..512]);
    assert_eq!(&data_frame(1, &pkt, 1)[14..], &pkt[512..1024]);
}

#[test]
fn single_frame_lost() {
    let pkt = ramp(1536);
    let mut tx = Sender::new();
    let mut lose = |k: u16, attempt: usize| k == 1 && attempt == 0;
    let report = exchange(&mut tx, &pkt, &mut lose).unwrap();
    assert_eq!(report.packet, pkt);
    assert_eq!(report.timeouts, 1);
    assert_eq!(report.requests, vec![1u16]);
    assert_eq!(report.frames_on_wire, 3);
    assert_eq!(report.acks_sent, 1);
}

#[test]
fn duplicate_frame() {
    let pkt = ramp(1024);
    let first = data_frame(7, &pkt, 0);
    let mut rx = Receiver::start(&first).unwrap();
    rx.on_datagram(&first);
    assert_eq!(rx.missing_count(), 1);
    let mut forged = first.clone();
    for b in forged[14..].iter_mut() {
        *b = 0xff;
    }
    rx.on_datagram(&forged);
    assert_eq!(rx.missing_count(), 1);
    rx.on_datagram(&data_frame(7, &pkt, 1));
    rx.on_datagram(&data_frame(7, &pkt, 1));
    assert!(rx.is_complete());
    assert_eq!(rx.finish().packet, pkt);
}

#[test]
fn foreign_frame_during_receive() {
    let pkt = ramp(2048);
    let foreign = vec![0xabu8; 2048];
    let mut rx = Receiver::start(&data_frame(7, &pkt, 0)).unwrap();
    rx.on_datagram(&data_frame(99, &foreign, 1));
    rx.on_datagram(&data_frame(7, &pkt, 1));
    rx.on_datagram(&data_frame(99, &foreign, 2));
    rx.on_datagram(&data_frame(99, &foreign, 3));
    assert_eq!(rx.missing_count(), 2);
    assert_eq!(rx.retries_left(), 10);
    rx.on_datagram(&data_frame(7, &pkt, 2));
    rx.on_datagram(&data_frame(7, &pkt, 3));
    assert_eq!(rx.retries_left(), 10);
    let delivery = rx.finish();
    assert_eq!(delivery.packet, pkt);
    assert_eq!(decode_header(&delivery.ack), Some(Header { pkt_id: 7, pkt_sz: 0, frame_no: 0 }));
}

#[test]
fn loss_exceeds_budget() {
    let pkt = ramp(1536);
    let mut tx = Sender::new();
    let mut lose = |k: u16, _attempt: usize| k == 1;
    let outcome = exchange(&mut tx, &pkt, &mut lose);
    assert!(matches!(outcome, Err(RecvError::TooManyFramesLost)));
    let mut rx = Receiver::start(&data_frame(1, &pkt, 0)).unwrap();
    rx.on_datagram(&data_frame(1, &pkt, 2));
    for left in (1..10usize).rev() {
        assert!(rx.on_timeout().is_ok());
        assert_eq!(rx.retries_left(), left);
    }
    assert_eq!(rx.retries_left(), 1);
    assert_eq!(rx.on_timeout(), Err(RecvError::TooManyFramesLost));
    assert_eq!(rx.retries_left(), 0);
}

#[test]
fn boundary_one_byte() {
    let pkt = vec![0x5au8];
    let mut tx = Sender::new();
    let report = exchange(&mut tx, &pkt, &mut no_loss).unwrap();
    assert_eq!(report.packet, pkt);
    assert_eq!(report.frames_on_wire, 1);
}

#[test]
fn boundary_one_full_frame() {
    let pkt = ramp(512);
    let mut tx = Sender::new();
    let report = exchange(&mut tx, &pkt, &mut no_loss).unwrap();
    assert_eq!(report.packet, pkt);
    assert_eq!(report.frames_on_wire, 1);
}

#[test]
fn boundary_one_byte_over_a_frame() {
    let pkt = ramp(513);
    let mut tx = Sender::new();
    let report = exchange(&mut tx, &pkt, &mut no_loss).unwrap();
    assert_eq!(report.packet.len(), 513);
    assert_eq!(report.packet, pkt);
    assert_eq!(report.frames_on_wire, 2);
}

#[test]
fn boundary_largest_packet() {
    let pkt: Vec<u8> = (0..33_554_432usize).map(|i| (i % 251) as u8).collect();
    let mut tx = Sender::new();
    let report = exchange(&mut tx, &pkt, &mut no_loss).unwrap();
    assert_eq!(report.packet.len(), 33_554_432);
    assert!(report.packet == pkt);
    assert_eq!(report.frames_on_wire, 65_536);
    assert_eq!(report.acks_sent, 1);
    assert_eq!(report.timeouts, 0);
}

#[test]
fn round_trip_over_many_sizes() {
    let mut tx = Sender::new();
    let mut expected_id: u64 = 0;
    for len in [1usize, 2, 100, 511, 512, 513, 1023, 1024, 1025, 4096, 5000, 70_000] {
        let pkt: Vec<u8> = (0..len).map(|i| (i * 7 % 253) as u8).collect();
        let report = exchange(&mut tx, &pkt, &mut no_loss).unwrap();
        expected_id += 1;
        assert_eq!(tx.pkt_id(), expected_id);
        assert_eq!(report.packet, pkt);
        assert_eq!(report.frames_on_wire, (len + 511) / 512);
        assert_eq!(report.acks_sent, 1);
    }
}

#[test]
fn round_trip_with_scattered_loss() {
    let pkt = ramp(40 * 512 + 123);
    let mut tx = Sender::new();
    let mut lose = |k: u16, attempt: usize| (k % 5 == 3 && attempt == 0) || (k == 8 && attempt < 3);
    let report = exchange(&mut tx, &pkt, &mut lose).unwrap();
    assert_eq!(report.packet, pkt);
    assert_eq!(report.timeouts, 3);
    assert_eq!(report.requests, vec![3u16, 8, 13, 18, 23, 28, 33, 38, 8, 8]);
}

#[test]
fn round_trip_in_reverse_order() {
    let pkt = ramp(9 * 512 + 1);
    let mut rx = Receiver::start(&data_frame(2, &pkt, 9)).unwrap();
    for k in (0..9u16).rev() {
        assert!(!rx.is_complete());
        rx.on_datagram(&data_frame(2, &pkt, k));
    }
    assert!(rx.is_complete());
    assert_eq!(rx.finish().packet, pkt);
}

#[test]
fn loss_of_more_than_ten_frames_ends_at_the_first_timeout() {
    let pkt = ramp(30 * 512);
    let mut tx = Sender::new();
    let mut lose = |k: u16, attempt: usize| k >= 19 && attempt == 0;
    let outcome = exchange(&mut tx, &pkt, &mut lose);
    assert!(matches!(outcome, Err(RecvError::TooManyFramesLost)));
}
