use pkt_udp::frame::{decode_header, encode_frame, Header};
use pkt_udp::packet::{ack_frame, data_frame, nack_frame};
use pkt_udp::receiver::{Receiver, RecvError, MAX_LOST_SIZE};

fn ramp(len: usize) -> Vec<u8> {
    (0..len).map(|i| (i % 256) as u8).collect()
}

#[test]
fn retry_budget_is_ten() {
    assert_eq!(MAX_LOST_SIZE, 10);
}

#[test]
fn start_pins_identity_and_length() {
    let pkt = ramp(1536);
    let rx = Receiver::start(&data_frame(7, &pkt, 1)).unwrap();
    assert_eq!(rx.pkt_id(), 7);
    assert_eq!(rx.retries_left(), 10);
    assert_eq!(rx.missing_count(), 2);
    assert!(!rx.is_complete());
}

#[test]
fn start_refuses_what_is_no_frame() {
    assert!(Receiver::start(&[]).is_none());
    assert!(Receiver::start(&[0u8; 525]).is_none());
    assert!(Receiver::start(&[0u8; 527]).is_none());
}

#[test]
fn start_refuses_a_packet_that_frames_cannot_address() {
    let header = Header { pkt_id: 1, pkt_sz: 33_554_433, frame_no: 0 };
    assert!(Receiver::start(&encode_frame(header, &[1, 2, 3])).is_none());
    let header = Header { pkt_id: 1, pkt_sz: u32::MAX, frame_no: 0 };
    assert!(Receiver::start(&encode_frame(header, &[1, 2, 3])).is_none());
}

#[test]
fn start_on_an_announced_length_of_zero_is_complete() {
    let rx = Receiver::start(&ack_frame(4)).unwrap();
    assert!(rx.is_complete());
    let delivery = rx.finish();
    assert!(delivery.packet.is_empty());
    assert_eq!(delivery.ack, ack_frame(4));
}

#[test]
fn frame_of_the_packet_is_taken_in() {
    let pkt = ramp(1024);
    let mut rx = Receiver::start(&data_frame(7, &pkt, 0)).unwrap();
    rx.on_datagram(&data_frame(7, &pkt, 1));
    assert!(rx.is_complete());
    assert_eq!(rx.retries_left(), 10);
    let delivery = rx.finish();
    assert_eq!(delivery.packet, pkt);
}

#[test]
fn frame_of_another_packet_is_ignored() {
    let pkt = ramp(1024);
    let other = vec![0xeeu8; 1024];
    let mut rx = Receiver::start(&data_frame(7, &pkt, 0)).unwrap();
    rx.on_datagram(&data_frame(8, &other, 1));
    rx.on_datagram(&data_frame(6, &other, 1));
    rx.on_datagram(&data_frame(0, &other, 1));
    assert_eq!(rx.missing_count(), 1);
    assert!(!rx.is_complete());
    rx.on_datagram(&data_frame(7, &pkt, 1));
    assert_eq!(rx.finish().packet, pkt);
}

#[test]
fn frame_that_announces_another_length_is_ignored() {
    let pkt = ramp(1024);
    let longer = vec![0xeeu8; 1025];
    let mut rx = Receiver::start(&data_frame(7, &pkt, 0)).unwrap();
    rx.on_datagram(&data_frame(7, &longer, 1));
    rx.on_datagram(&ack_frame(7));
    assert_eq!(rx.missing_count(), 1);
    rx.on_datagram(&data_frame(7, &pkt, 1));
    assert_eq!(rx.finish().packet, pkt);
}

#[test]
fn datagram_of_another_size_is_ignored() {
    let pkt = ramp(1024);
    let mut rx = Receiver::start(&data_frame(7, &pkt, 0)).unwrap();
    let frame = data_frame(7, &pkt, 1);
    rx.on_datagram(&frame[..525]);
    rx.on_datagram(&[]);
    let mut long = frame.clone();
    long.push(0);
    rx.on_datagram(&long);
    assert_eq!(rx.missing_count(), 1);
    assert_eq!(rx.retries_left(), 10);
}

#[test]
fn timeout_asks_for_each_missing_frame_in_order() {
    let pkt = ramp(6 * 512);
    let mut rx = Receiver::start(&data_frame(3, &pkt, 2)).unwrap();
    rx.on_datagram(&data_frame(3, &pkt, 4));
    let nacks = rx.on_timeout().unwrap();
    assert_eq!(nacks.len(), 4);
    let expected: [u16; 4] = [0, 1, 3, 5];
    for (nack, k) in nacks.iter().zip(expected) {
        assert_eq!(nack.len(), 526);
        assert_eq!(decode_header(nack), Some(Header { pkt_id: 3, pkt_sz: 3072, frame_no: k }));
        assert!(nack[14..].iter().all(|b| *b == 0));
        assert_eq!(*nack, nack_frame(3, 3072, k));
    }
    assert_eq!(rx.retries_left(), 9);
    assert_eq!(rx.missing_count(), 4);
}

#[test]
fn timeout_leaves_the_buffer_alone() {
    let pkt = ramp(1024);
    let mut rx = Receiver::start(&data_frame(3, &pkt, 1)).unwrap();
    rx.on_timeout().unwrap();
    rx.on_timeout().unwrap();
    rx.on_datagram(&data_frame(3, &pkt, 0));
    assert_eq!(rx.retries_left(), 8);
    assert_eq!(rx.finish().packet, pkt);
}

#[test]
fn nine_timeouts_are_survived_and_the_tenth_fails() {
    let pkt = ramp(1536);
    let mut rx = Receiver::start(&data_frame(5, &pkt, 0)).unwrap();
    let mut left: usize = 10;
    for _ in 0..9 {
        let nacks = rx.on_timeout().unwrap();
        assert_eq!(nacks.len(), 2);
        left -= 1;
        assert_eq!(rx.retries_left(), left);
    }
    assert_eq!(rx.retries_left(), 1);
    assert_eq!(rx.on_timeout(), Err(RecvError::TooManyFramesLost));
    assert_eq!(rx.retries_left(), 0);
    assert_eq!(rx.on_timeout(), Err(RecvError::TooManyFramesLost));
    assert_eq!(rx.retries_left(), 0);
}

#[test]
fn frames_between_timeouts_do_not_restore_the_budget() {
    let pkt = ramp(12 * 512);
    let mut rx = Receiver::start(&data_frame(5, &pkt, 0)).unwrap();
    rx.on_datagram(&data_frame(5, &pkt, 1));
    for k in 2..11u16 {
        assert!(rx.on_timeout().is_ok());
        rx.on_datagram(&data_frame(5, &pkt, k));
    }
    assert_eq!(rx.retries_left(), 1);
    assert_eq!(rx.missing_count(), 1);
    assert_eq!(rx.on_timeout(), Err(RecvError::TooManyFramesLost));
}

#[test]
fn timeout_with_more_than_ten_missing_fails_at_once() {
    let pkt = ramp(12 * 512);
    let mut rx = Receiver::start(&data_frame(5, &pkt, 0)).unwrap();
    assert_eq!(rx.missing_count(), 11);
    assert_eq!(rx.on_timeout(), Err(RecvError::TooManyFramesLost));
    assert_eq!(rx.retries_left(), 9);
}

#[test]
fn timeout_with_exactly_ten_missing_asks_again() {
    let pkt = ramp(11 * 512);
    let mut rx = Receiver::start(&data_frame(5, &pkt, 10)).unwrap();
    assert_eq!(rx.missing_count(), 10);
    let nacks = rx.on_timeout().unwrap();
    assert_eq!(nacks.len(), 10);
    for (k, nack) in nacks.iter().enumerate() {
        assert_eq!(*nack, nack_frame(5, 11 * 512, k as u16));
    }
}

#[test]
fn finish_hands_over_one_ack_with_the_packet() {
    let pkt = ramp(700);
    let mut rx = Receiver::start(&data_frame(42, &pkt, 1)).unwrap();
    rx.on_datagram(&data_frame(42, &pkt, 0));
    assert!(rx.is_complete());
    let delivery = rx.finish();
    assert_eq!(delivery.packet.len(), 700);
    assert_eq!(delivery.packet, pkt);
    assert_eq!(delivery.ack.len(), 526);
    assert_eq!(
        decode_header(&delivery.ack),
        Some(Header { pkt_id: 42, pkt_sz: 0, frame_no: 0 })
    );
    assert!(delivery.ack[14..].iter().all(|b| *b == 0));
}
