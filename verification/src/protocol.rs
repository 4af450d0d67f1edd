//! The frames that manager and workers exchange.
//!
//! A message travels as a frame: four bytes that give, most significant byte
//! first, the number of bytes that follow; one byte that tells the kind of the
//! message; and the message's payload, of less than 64 MiB. The kinds are a
//! closed set: a frame with any other tag is a violation of the protocol.

use vstd::prelude::*;

verus! {

/// The kinds of messages.
#[derive(Debug, Clone, Copy, PartialEq, Eq, Structural)]
pub enum Tag {
    /// A worker announces itself, with its identity if it has one.
    Attach,
    /// The manager admits a worker and gives it its identity and the
    /// configuration of the run.
    AttachOk,
    /// The manager turns a worker away.
    AttachDenied,
    /// A worker reports the statistics gathered since its last report.
    StatsDelta,
    /// The manager tells the workers to stop.
    Stop,
    /// A worker reports its last statistics.
    StatsFinal,
    /// A worker takes its leave.
    Bye,
}

/// Which end of a connection sent a message.
#[derive(Debug, Clone, Copy, PartialEq, Eq, Structural)]
pub enum Sender {
    /// The manager.
    Manager,
    /// A worker.
    Worker,
}

/// Why bytes are not a frame, or a message not to be framed.
#[derive(Debug, Clone, Copy, PartialEq, Eq, Structural)]
pub enum FrameError {
    /// The bytes end before the frame does.
    Incomplete,
    /// The frame has no tag: its length is 0.
    MissingTag,
    /// The tag stands for no kind of message.
    UnknownTag,
    /// The payload is longer than [`MAX_PAYLOAD`] bytes.
    TooLong,
}

/// A frame that was read.
#[derive(Debug)]
pub struct Frame {
    /// The kind of the message.
    pub tag: Tag,
    /// The payload of the message.
    pub payload: Vec<u8>,
    /// The number of bytes that the frame took up.
    pub consumed: usize,
}

/// The greatest number of bytes of a payload: one less than 64 MiB. No end
/// sends a longer frame, and none takes one.
pub const MAX_PAYLOAD: usize = 0x3FF_FFFF;

/// The byte that stands for `tag`.
pub open spec fn tag_byte(tag: Tag) -> u8 {
    match tag {
        Tag::Attach => 1,
        Tag::AttachOk => 2,
        Tag::AttachDenied => 3,
        Tag::StatsDelta => 4,
        Tag::Stop => 5,
        Tag::StatsFinal => 6,
        Tag::Bye => 7,
    }
}

/// The kind that `byte` stands for, if it stands for one.
pub open spec fn tag_of(byte: u8) -> Option<Tag> {
    if byte == 1 {
        Some(Tag::Attach)
    } else if byte == 2 {
        Some(Tag::AttachOk)
    } else if byte == 3 {
        Some(Tag::AttachDenied)
    } else if byte == 4 {
        Some(Tag::StatsDelta)
    } else if byte == 5 {
        Some(Tag::Stop)
    } else if byte == 6 {
        Some(Tag::StatsFinal)
    } else if byte == 7 {
        Some(Tag::Bye)
    } else {
        None
    }
}

/// The end that sends messages of the kind `tag`.
pub open spec fn sender_of(tag: Tag) -> Sender {
    match tag {
        Tag::Attach => Sender::Worker,
        Tag::AttachOk => Sender::Manager,
        Tag::AttachDenied => Sender::Manager,
        Tag::StatsDelta => Sender::Worker,
        Tag::Stop => Sender::Manager,
        Tag::StatsFinal => Sender::Worker,
        Tag::Bye => Sender::Worker,
    }
}

/// The four bytes that give `n`, most significant first.
pub open spec fn length_bytes(n: nat) -> Seq<u8> {
    seq![
        (n / 0x100_0000 % 0x100) as u8,
        (n / 0x1_0000 % 0x100) as u8,
        (n / 0x100 % 0x100) as u8,
        (n % 0x100) as u8,
    ]
}

/// The number that the first four of `bytes` give.
pub open spec fn length_of(bytes: Seq<u8>) -> nat {
    (bytes[0] * 0x100_0000 + bytes[1] * 0x1_0000 + bytes[2] * 0x100 + bytes[3]) as nat
}

/// The frame of a message of kind `tag` with `payload`.
pub open spec fn frame(tag: Tag, payload: Seq<u8>) -> Seq<u8> {
    length_bytes(payload.len() + 1) + seq![tag_byte(tag)] + payload
}

/// What the frame at the start of `bytes` holds: its tag, its payload and the
/// number of bytes it takes up; or why there is no frame.
pub open spec fn parsed(bytes: Seq<u8>) -> Result<(Tag, Seq<u8>, nat), FrameError> {
    if bytes.len() < 4 {
        Err(FrameError::Incomplete)
    } else if length_of(bytes) == 0 {
        Err(FrameError::MissingTag)
    } else if length_of(bytes) > MAX_PAYLOAD + 1 {
        Err(FrameError::TooLong)
    } else if bytes.len() < 4 + length_of(bytes) {
        Err(FrameError::Incomplete)
    } else {
        match tag_of(bytes[4]) {
            Some(tag) => Ok(
                (tag, bytes.subrange(5, 4 + length_of(bytes) as int), 4 + length_of(bytes)),
            ),
            None => Err(FrameError::UnknownTag),
        }
    }
}

/// Every kind has a byte of its own, and that byte stands for the kind.
pub proof fn lemma_tag_round_trip(tag: Tag)
    ensures
        tag_of(tag_byte(tag)) == Some(tag),
{
}

/// A byte that stands for a kind is that kind's byte.
pub proof fn lemma_tag_unique(byte: u8)
    ensures
        tag_of(byte) matches Some(tag) ==> tag_byte(tag) == byte,
{
}

/// The four bytes of a length give that length.
pub proof fn lemma_length_round_trip(n: nat)
    requires
        n <= 0xFFFF_FFFF,
    ensures
        length_bytes(n).len() == 4,
        length_of(length_bytes(n)) == n,
{
}

/// What was framed is read back: a frame, whatever follows it, parses to its
/// tag and payload, and takes up its own length.
pub proof fn lemma_frame_round_trip(tag: Tag, payload: Seq<u8>, rest: Seq<u8>)
    requires
        payload.len() <= MAX_PAYLOAD,
    ensures
        parsed(frame(tag, payload) + rest) == Ok::<(Tag, Seq<u8>, nat), FrameError>(
            (tag, payload, frame(tag, payload).len()),
        ),
        frame(tag, payload).len() == payload.len() + 5,
{
    let n: nat = payload.len() + 1;
    let bytes: Seq<u8> = frame(tag, payload) + rest;
    lemma_length_round_trip(n);
    assert(bytes[0] == length_bytes(n)[0]);
    assert(bytes[1] == length_bytes(n)[1]);
    assert(bytes[2] == length_bytes(n)[2]);
    assert(bytes[3] == length_bytes(n)[3]);
    assert(length_of(bytes) == n);
    assert(bytes[4] == tag_byte(tag));
    assert(bytes.subrange(5, 4 + n as int) =~= payload);
}

/// Four bytes are the bytes of the length that they give.
pub proof fn lemma_length_bytes_unique(b0: u8, b1: u8, b2: u8, b3: u8)
    ensures
        length_of(seq![b0, b1, b2, b3]) <= 0xFFFF_FFFF,
        length_bytes(length_of(seq![b0, b1, b2, b3])) == seq![b0, b1, b2, b3],
{
    let given: Seq<u8> = seq![b0, b1, b2, b3];
    let n: int = b0 * 0x100_0000 + b1 * 0x1_0000 + b2 * 0x100 + b3;
    assert(length_of(given) == n);
    assert(n / 0x100_0000 % 0x100 == b0);
    assert(n / 0x1_0000 % 0x100 == b1);
    assert(n / 0x100 % 0x100 == b2);
    assert(n % 0x100 == b3);
    assert(length_bytes(n as nat) =~= given);
}

/// What parses as a frame is the frame of what it parses to, followed by the
/// bytes that the frame does not take up.
pub proof fn lemma_parsed_is_frame(bytes: Seq<u8>)
    ensures
        parsed(bytes) matches Ok((tag, payload, consumed)) ==> {
            &&& consumed <= bytes.len()
            &&& payload.len() <= MAX_PAYLOAD
            &&& bytes == frame(tag, payload) + bytes.subrange(consumed as int, bytes.len() as int)
        },
{
    if parsed(bytes) is Ok {
        let head: Seq<u8> = seq![bytes[0], bytes[1], bytes[2], bytes[3]];
        let n: nat = length_of(bytes);
        assert(length_of(head) == n);
        lemma_length_bytes_unique(bytes[0], bytes[1], bytes[2], bytes[3]);
        lemma_tag_unique(bytes[4]);
        let tag: Tag = tag_of(bytes[4]).unwrap();
        let payload: Seq<u8> = bytes.subrange(5, 4 + n as int);
        let rest: Seq<u8> = bytes.subrange(4 + n as int, bytes.len() as int);
        assert(payload.len() + 1 == n);
        assert(frame(tag, payload) == head + seq![bytes[4]] + payload);
        assert(head + seq![bytes[4]] + payload + rest =~= bytes);
    }
}

/// The byte that stands for `tag`.
pub fn tag_to_byte(tag: Tag) -> (byte: u8)
    ensures
        byte == tag_byte(tag),
{
    match tag {
        Tag::Attach => 1,
        Tag::AttachOk => 2,
        Tag::AttachDenied => 3,
        Tag::StatsDelta => 4,
        Tag::Stop => 5,
        Tag::StatsFinal => 6,
        Tag::Bye => 7,
    }
}

/// The kind that `byte` stands for; none for a byte that stands for no kind.
pub fn tag_from_byte(byte: u8) -> (tag: Option<Tag>)
    ensures
        tag == tag_of(byte),
{
    if byte == 1 {
        Some(Tag::Attach)
    } else if byte == 2 {
        Some(Tag::AttachOk)
    } else if byte == 3 {
        Some(Tag::AttachDenied)
    } else if byte == 4 {
        Some(Tag::StatsDelta)
    } else if byte == 5 {
        Some(Tag::Stop)
    } else if byte == 6 {
        Some(Tag::StatsFinal)
    } else if byte == 7 {
        Some(Tag::Bye)
    } else {
        None
    }
}

/// The end that sends messages of the kind `tag`.
pub fn sender(tag: Tag) -> (end: Sender)
    ensures
        end == sender_of(tag),
{
    match tag {
        Tag::Attach | Tag::StatsDelta | Tag::StatsFinal | Tag::Bye => Sender::Worker,
        Tag::AttachOk | Tag::AttachDenied | Tag::Stop => Sender::Manager,
    }
}

/// Frames a message of kind `tag` with `payload`. A payload of more than
/// [`MAX_PAYLOAD`] bytes is refused.
pub fn encode(tag: Tag, payload: &Vec<u8>) -> (result: Result<Vec<u8>, FrameError>)
    ensures
        payload@.len() > MAX_PAYLOAD <==> result == Err::<Vec<u8>, FrameError>(FrameError::TooLong),
        payload@.len() <= MAX_PAYLOAD ==> result.is_ok() && result.unwrap()@ == frame(tag, payload@),
{
    if payload.len() > MAX_PAYLOAD {
        return Err(FrameError::TooLong);
    }
    let n: usize = payload.len() + 1;
    let mut bytes: Vec<u8> = Vec::new();
    bytes.push((n / 0x100_0000 % 0x100) as u8);
    bytes.push((n / 0x1_0000 % 0x100) as u8);
    bytes.push((n / 0x100 % 0x100) as u8);
    bytes.push((n % 0x100) as u8);
    bytes.push(tag_to_byte(tag));
    let ghost head: Seq<u8> = bytes@;
    assert(head =~= length_bytes(n as nat) + seq![tag_byte(tag)]);
    let mut i: usize = 0;
    while i < payload.len()
        invariant
            i <= payload.len(),
            bytes@ == head + payload@.take(i as int),
        decreases payload.len() - i,
    {
        bytes.push(payload[i]);
        i = i + 1;
        proof {
            assert(payload@.take(i as int) == payload@.take(i - 1).push(payload@[i - 1]));
        }
    }
    proof {
        assert(payload@.take(i as int) == payload@);
    }
    Ok(bytes)
}

/// Reads the frame at the start of `bytes`.
pub fn decode(bytes: &Vec<u8>) -> (result: Result<Frame, FrameError>)
    ensures
        match result {
            Ok(f) => parsed(bytes@) == Ok::<(Tag, Seq<u8>, nat), FrameError>(
                (f.tag, f.payload@, f.consumed as nat),
            ),
            Err(e) => parsed(bytes@) == Err::<(Tag, Seq<u8>, nat), FrameError>(e),
        },
{
    if bytes.len() < 4 {
        return Err(FrameError::Incomplete);
    }
    let n: u64 = (bytes[0] as u64) * 0x100_0000 + (bytes[1] as u64) * 0x1_0000 + (bytes[2] as u64)
        * 0x100 + (bytes[3] as u64);
    if n == 0 {
        return Err(FrameError::MissingTag);
    }
    if n > MAX_PAYLOAD as u64 + 1 {
        return Err(FrameError::TooLong);
    }
    if ((bytes.len() - 4) as u64) < n {
        return Err(FrameError::Incomplete);
    }
    let end: usize = 4 + n as usize;
    let tag: Tag = match tag_from_byte(bytes[4]) {
        Some(tag) => tag,
        None => {
            return Err(FrameError::UnknownTag);
        },
    };
    let mut payload: Vec<u8> = Vec::new();
    let mut i: usize = 5;
    while i < end
        invariant
            5 <= i <= end,
            end <= bytes@.len(),
            payload@ == bytes@.subrange(5, i as int),
        decreases end - i,
    {
        payload.push(bytes[i]);
        i = i + 1;
        proof {
            assert(bytes@.subrange(5, i as int) == bytes@.subrange(5, i - 1).push(bytes@[i - 1]));
        }
    }
    Ok(Frame { tag: tag, payload: payload, consumed: end })
}

} // verus!
