use goose::protocol::{
    decode, encode, sender, tag_from_byte, tag_to_byte, FrameError, Sender, Tag, MAX_PAYLOAD,
};

const TAGS: [Tag; 7] = [
    Tag::Attach,
    Tag::AttachOk,
    Tag::AttachDenied,
    Tag::StatsDelta,
    Tag::Stop,
    Tag::StatsFinal,
    Tag::Bye,
];

#[test]
fn tags_have_bytes_of_their_own() {
    let bytes: Vec<u8> = TAGS.iter().map(|&tag| tag_to_byte(tag)).collect();
    assert_eq!(bytes, vec![1, 2, 3, 4, 5, 6, 7]);
    for tag in TAGS {
        assert_eq!(tag_from_byte(tag_to_byte(tag)), Some(tag));
    }
    assert_eq!(tag_from_byte(0), None);
    for byte in 8..=255u8 {
        assert_eq!(tag_from_byte(byte), None);
    }
}

#[test]
fn each_kind_of_message_has_its_sender() {
    assert_eq!(sender(Tag::Attach), Sender::Worker);
    assert_eq!(sender(Tag::AttachOk), Sender::Manager);
    assert_eq!(sender(Tag::AttachDenied), Sender::Manager);
    assert_eq!(sender(Tag::StatsDelta), Sender::Worker);
    assert_eq!(sender(Tag::Stop), Sender::Manager);
    assert_eq!(sender(Tag::StatsFinal), Sender::Worker);
    assert_eq!(sender(Tag::Bye), Sender::Worker);
}

#[test]
fn frame_is_length_then_tag_then_payload() {
    assert_eq!(encode(Tag::Bye, &vec![]), Ok(vec![0, 0, 0, 1, 7]));
    assert_eq!(encode(Tag::Stop, &vec![9, 8]), Ok(vec![0, 0, 0, 3, 5, 9, 8]));
    let payload = vec![0xAB; 0x1_02_03];
    let framed = encode(Tag::StatsDelta, &payload).unwrap();
    assert_eq!(framed[..5], [0, 1, 2, 4, 4]);
    assert_eq!(framed[5..], payload[..]);
}

#[test]
fn framed_messages_are_read_back() {
    for tag in TAGS {
        for payload in [vec![], vec![0], vec![1, 2, 3, 255], vec![7; 300]] {
            let mut bytes = encode(tag, &payload).unwrap();
            let length = bytes.len();
            bytes.extend_from_slice(&[1, 2, 3]);
            let frame = decode(&bytes).unwrap();
            assert_eq!(frame.tag, tag);
            assert_eq!(frame.payload, payload);
            assert_eq!(frame.consumed, length);
        }
    }
}

#[test]
fn two_frames_in_a_row_are_read_one_after_the_other() {
    let mut bytes = encode(Tag::StatsFinal, &vec![4, 5]).unwrap();
    bytes.extend(encode(Tag::Bye, &vec![]).unwrap());
    let first = decode(&bytes).unwrap();
    assert_eq!((first.tag, first.payload.clone(), first.consumed), (Tag::StatsFinal, vec![4, 5], 7));
    let rest = bytes[first.consumed..].to_vec();
    let second = decode(&rest).unwrap();
    assert_eq!((second.tag, second.payload, second.consumed), (Tag::Bye, vec![], 5));
}

#[test]
fn bytes_that_are_no_frame_are_refused() {
    assert_eq!(decode(&vec![]).err(), Some(FrameError::Incomplete));
    assert_eq!(decode(&vec![0, 0, 0]).err(), Some(FrameError::Incomplete));
    assert_eq!(decode(&vec![0, 0, 0, 0]).err(), Some(FrameError::MissingTag));
    assert_eq!(decode(&vec![0, 0, 0, 0, 1]).err(), Some(FrameError::MissingTag));
    assert_eq!(decode(&vec![0, 0, 0, 1]).err(), Some(FrameError::Incomplete));
    assert_eq!(decode(&vec![0, 0, 0, 3, 5, 9]).err(), Some(FrameError::Incomplete));
    assert_eq!(decode(&vec![0, 255, 255, 255, 1, 2]).err(), Some(FrameError::Incomplete));
    assert_eq!(decode(&vec![0, 0, 0, 1, 0]).err(), Some(FrameError::UnknownTag));
    assert_eq!(decode(&vec![0, 0, 0, 2, 8, 1]).err(), Some(FrameError::UnknownTag));
    assert_eq!(decode(&vec![0, 0, 0, 2, 200, 1, 1]).err(), Some(FrameError::UnknownTag));
}

#[test]
fn payload_of_64_mib_is_refused() {
    assert_eq!(MAX_PAYLOAD, 64 * 1024 * 1024 - 1);
    let mut payload = vec![0u8; MAX_PAYLOAD + 1];
    assert_eq!(encode(Tag::StatsDelta, &payload), Err(FrameError::TooLong));
    payload.pop();
    let framed = encode(Tag::StatsDelta, &payload).unwrap();
    assert_eq!(framed[..5], [4, 0, 0, 0, 4]);
    assert_eq!(framed.len(), MAX_PAYLOAD + 5);
    let frame = decode(&framed).unwrap();
    assert_eq!(frame.consumed, MAX_PAYLOAD + 5);
    assert_eq!(frame.payload.len(), MAX_PAYLOAD);
    assert_eq!(decode(&vec![4, 0, 0, 1, 4, 0]).err(), Some(FrameError::TooLong));
    assert_eq!(decode(&vec![255, 255, 255, 255, 1, 2]).err(), Some(FrameError::TooLong));
    assert_eq!(decode(&vec![4, 0, 0, 0, 4, 0]).err(), Some(FrameError::Incomplete));
}
