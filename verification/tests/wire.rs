use snowball::dicemix::Cloak;
use snowball::message::{MessageState, SchnorrSig, SnowballMessage, SnowballPayload};
use snowball::participant::ParticipantID;
use snowball::wire::join_buffer;

fn pid(i: u8) -> ParticipantID {
    ParticipantID::new([i; 65], [i + 100; 32])
}

fn message(payload: SnowballPayload) -> SnowballMessage {
    SnowballMessage { sid: [0xab; 32], source: pid(1), destination: pid(2), payload }
}

fn payloads() -> Vec<SnowballPayload> {
    vec![
        SnowballPayload::SharedKeying { pkey: [1; 32], ksig: [2; 32] },
        SnowballPayload::Commitment { cmt: [3; 32] },
        SnowballPayload::CloakedVals {
            matrix: (0..200).map(|i| i as u8).collect(),
            gamma_sum: [4; 32],
            fee_sum: [5; 32],
            cloaks: vec![Cloak { id: pid(7), key: [8; 32] }, Cloak { id: pid(9), key: [10; 32] }],
        },
        SnowballPayload::CloakedVals {
            matrix: Vec::new(),
            gamma_sum: [4; 32],
            fee_sum: [5; 32],
            cloaks: Vec::new(),
        },
        SnowballPayload::Signature { sig: SchnorrSig { u: [11; 32], k: [12; 32] } },
        SnowballPayload::SecretKeying { skey: [13; 32] },
    ]
}

#[test]
fn every_kind_of_message_comes_back_from_its_bytes() {
    for p in payloads() {
        let msg = message(p);
        let buf = msg.into_buffer().expect("a message of this size can be written");
        assert_eq!(SnowballMessage::from_buffer(&buf), Some(msg));
    }
}

#[test]
fn a_message_is_laid_out_field_by_field() {
    let msg = message(SnowballPayload::Commitment { cmt: [3; 32] });
    let buf = msg.into_buffer().unwrap();
    assert_eq!(buf.len(), 4 + 32 + 97 + 97 + 1 + 32);
    assert_eq!(&buf[0..4], &[3, 1, 0, 0]);
    assert_eq!(&buf[4..36], &[0xab; 32]);
    assert_eq!(&buf[36..101], &[1; 65]);
    assert_eq!(&buf[101..133], &[101; 32]);
    assert_eq!(&buf[133..198], &[2; 65]);
    assert_eq!(&buf[198..230], &[102; 32]);
    assert_eq!(buf[230], 2);
    assert_eq!(&buf[231..], &[3; 32]);
}

#[test]
fn an_opened_matrix_is_laid_out_with_its_lengths() {
    let msg = message(SnowballPayload::CloakedVals {
        matrix: vec![0xee; 300],
        gamma_sum: [4; 32],
        fee_sum: [5; 32],
        cloaks: vec![Cloak { id: pid(7), key: [8; 32] }],
    });
    let buf = msg.into_buffer().unwrap();
    assert_eq!(buf.len(), 231 + 4 + 300 + 64 + 4 + 129);
    assert_eq!(buf[230], 3);
    assert_eq!(&buf[231..235], &[44, 1, 0, 0]);
    assert_eq!(&buf[235..535], &[0xee; 300][..]);
    assert_eq!(&buf[535..567], &[4; 32]);
    assert_eq!(&buf[567..599], &[5; 32]);
    assert_eq!(&buf[599..603], &[1, 0, 0, 0]);
    assert_eq!(&buf[603..668], &[7; 65]);
    assert_eq!(&buf[668..700], &[107; 32]);
    assert_eq!(&buf[700..732], &[8; 32]);
}

#[test]
fn the_kinds_are_numbered_in_the_order_of_the_round() {
    let tags: Vec<u8> = payloads()
        .into_iter()
        .map(|p| message(p).into_buffer().unwrap()[230])
        .collect();
    assert_eq!(tags, vec![1, 2, 3, 3, 4, 5]);
    let kinds: Vec<MessageState> = payloads().iter().map(|p| p.kind()).collect();
    assert_eq!(
        kinds,
        vec![
            MessageState::SharedKeying,
            MessageState::Commitment,
            MessageState::CloakedVals,
            MessageState::CloakedVals,
            MessageState::Signature,
            MessageState::SecretKeying
        ]
    );
}

#[test]
fn bytes_that_are_no_message_are_refused() {
    assert_eq!(SnowballMessage::from_buffer(&[]), None);
    assert_eq!(SnowballMessage::from_buffer(&[0; 230]), None);
    for p in payloads() {
        let buf = message(p).into_buffer().unwrap();
        // cut short
        assert_eq!(SnowballMessage::from_buffer(&buf[..buf.len() - 1]), None);
        assert_eq!(SnowballMessage::from_buffer(&buf[..231]), None);
        // something behind
        let mut long = buf.clone();
        long.push(0);
        assert_eq!(SnowballMessage::from_buffer(&long), None);
        // something behind, and counted
        long[0] = long[0].wrapping_add(1);
        if long[0] != 0 {
            assert_eq!(SnowballMessage::from_buffer(&long), None);
        }
        // a wrong length in front
        let mut wrong = buf.clone();
        wrong[0] ^= 1;
        assert_eq!(SnowballMessage::from_buffer(&wrong), None);
        // no such kind
        for tag in [0u8, 6, 255] {
            let mut other = buf.clone();
            other[230] = tag;
            assert_eq!(SnowballMessage::from_buffer(&other), None);
        }
    }
}

#[test]
fn a_wrong_count_inside_is_refused() {
    let msg = message(payloads().remove(2));
    let buf = msg.into_buffer().unwrap();
    // a matrix said to be longer than the buffer
    let mut wrong = buf.clone();
    wrong[234] = 0xff;
    assert_eq!(SnowballMessage::from_buffer(&wrong), None);
    // one cloak more than there is
    let mut wrong = buf.clone();
    wrong[231 + 4 + 200 + 64] = 3;
    assert_eq!(SnowballMessage::from_buffer(&wrong), None);
    // a matrix one byte shorter: the rest is no whole number of cloaks
    let mut wrong = buf.clone();
    wrong[231] -= 1;
    assert_eq!(SnowballMessage::from_buffer(&wrong), None);
}

#[test]
fn a_changed_byte_gives_another_message() {
    let msg = message(payloads().remove(2));
    let buf = msg.into_buffer().unwrap();
    for at in [4usize, 36, 101, 133, 198, 235, 435, 467, 503, 600, 640] {
        let mut other = buf.clone();
        other[at] ^= 0x80;
        let read = SnowballMessage::from_buffer(&other).expect("still a message");
        assert_ne!(read, msg);
        assert_eq!(read.into_buffer().unwrap(), other);
    }
}

#[test]
fn a_request_to_join_is_laid_out_field_by_field() {
    let sig = SchnorrSig { u: [11; 32], k: [12; 32] };
    let buf = join_buffer(
        &[1; 32],
        &vec![[2; 32], [3; 32]],
        &vec![vec![4; 5], vec![]],
        &sig,
    )
    .unwrap();
    let mut want = vec![1u8; 32];
    want.extend([2, 0, 0, 0]);
    want.extend([2u8; 32]);
    want.extend([5, 0, 0, 0]);
    want.extend([4u8; 5]);
    want.extend([3u8; 32]);
    want.extend([0, 0, 0, 0]);
    want.extend([11u8; 32]);
    want.extend([12u8; 32]);
    assert_eq!(buf, want);
    // an input without its body
    assert_eq!(join_buffer(&[1; 32], &vec![[2; 32]], &vec![], &sig), None);
    assert_eq!(join_buffer(&[1; 32], &vec![], &vec![], &sig).unwrap().len(), 32 + 4 + 64);
}
