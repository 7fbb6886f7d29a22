//! The receive buffer of one client, and the framing of its bytes into packets.
use crate::error::NetError;
use crate::inflate::{inflate_zlib, zlib_inflate};
use crate::packet::InPacket;
use vstd::prelude::*;

verus! {

/// The number of bytes that a client's receive buffer holds at most.
pub const BUF_SIZE: usize = 65536;

/// The bytes received from one client and not yet read as packets.
pub struct ClientBuffer {
    bytes: Vec<u8>,
}

impl View for ClientBuffer {
    type V = Seq<u8>;

    closed spec fn view(&self) -> Seq<u8> {
        self.bytes@
    }
}

/// What the front of a client's pending bytes holds.
pub enum Decoded<I> {
    /// No byte is pending.
    Empty,
    /// A packet was read; its first `consumed` bytes are to be dropped.
    Packet { packet: I, consumed: usize },
    /// No packet could be read, from the raw bytes nor from their zlib
    /// inflation; the client is to be closed with this error.
    Failed(NetError),
}

/// Decides what a read attempt gave: `first` and `position` are what reading
/// the raw pending bytes returned, `retry` what reading their zlib inflation
/// returned, where it was tried and the inflation succeeded.
///
/// A packet counts the bytes that the raw read went through, also where it
/// came from the inflated bytes; where both reads fail, the error of the raw
/// read is the one reported.
pub fn settle_read<I>(
    first: Result<I, std::io::Error>,
    position: usize,
    retry: Option<Result<I, std::io::Error>>,
) -> (decoded: Decoded<I>)
    ensures
        match first {
            Ok(packet) => decoded == Decoded::Packet { packet, consumed: position },
            Err(error) => match retry {
                Some(Ok(packet)) => decoded == Decoded::Packet { packet, consumed: position },
                _ => decoded == Decoded::<I>::Failed(NetError::Io(error)),
            },
        },
{
    match first {
        Ok(packet) => Decoded::Packet { packet, consumed: position },
        Err(error) => match retry {
            Some(Ok(packet)) => Decoded::Packet { packet, consumed: position },
            _ => Decoded::Failed(NetError::Io(error)),
        },
    }
}

impl ClientBuffer {
    #[verifier::type_invariant]
    spec fn fits(&self) -> bool {
        self.bytes.len() <= BUF_SIZE
    }

    /// An empty buffer.
    pub fn new() -> (buffer: Self)
        ensures
            buffer@ == Seq::<u8>::empty(),
    {
        ClientBuffer { bytes: Vec::new() }
    }

    /// The number of pending bytes.
    pub fn len(&self) -> (len: usize)
        ensures
            len == self@.len(),
            len <= BUF_SIZE,
    {
        proof {
            use_type_invariant(self);
        }
        self.bytes.len()
    }

    /// The number of bytes that can still be received.
    pub fn spare(&self) -> (spare: usize)
        ensures
            spare == BUF_SIZE - self@.len(),
    {
        proof {
            use_type_invariant(self);
        }
        BUF_SIZE - self.bytes.len()
    }

    /// The pending bytes.
    pub fn pending(&self) -> (bytes: &[u8])
        ensures
            bytes@ == self@,
    {
        self.bytes.as_slice()
    }

    /// Appends received bytes, which must fit in the spare room.
    pub fn extend(&mut self, data: &[u8])
        requires
            old(self)@.len() + data@.len() <= BUF_SIZE,
        ensures
            final(self)@ == old(self)@ + data@,
    {
        let mut bytes = Vec::new();
        std::mem::swap(&mut bytes, &mut self.bytes);
        let ghost start = bytes@;
        let mut i: usize = 0;
        while i < data.len()
            invariant
                i <= data@.len(),
                bytes@ == start + data@.take(i as int),
            decreases data@.len() - i,
        {
            bytes.push(data[i]);
            i = i + 1;
            assert(data@.take(i as int) == data@.take(i - 1) + seq![data@[i - 1]]);
        }
        assert(data@.take(data@.len() as int) == data@);
        self.bytes = bytes;
    }

    /// Drops the first `count` pending bytes, keeping the others in order.
    pub fn consume(&mut self, count: usize)
        requires
            count <= old(self)@.len(),
        ensures
            final(self)@ == old(self)@.subrange(count as int, old(self)@.len() as int),
    {
        proof {
            use_type_invariant(&*self);
        }
        let mut bytes = Vec::new();
        std::mem::swap(&mut bytes, &mut self.bytes);
        let ghost start = bytes@;
        let len = bytes.len();
        let mut i: usize = count;
        while i < len
            invariant
                count <= i <= len,
                len == start.len(),
                bytes@.len() == len,
                forall|j: int| 0 <= j < i - count ==> bytes@[j] == start[count + j],
                forall|j: int| i <= j < len ==> bytes@[j] == start[j],
            decreases len - i,
        {
            let b = bytes[i];
            bytes.set(i - count, b);
            i = i + 1;
        }
        bytes.truncate(len - count);
        assert(bytes@ == start.subrange(count as int, len as int));
        self.bytes = bytes;
    }

    /// Tries to read one packet from the front of the pending bytes.
    ///
    /// The pending bytes are read first. Where that fails and they inflate
    /// as a zlib stream, the inflated bytes are read in turn. A packet counts
    /// as many bytes as the read of the pending bytes went through, wherever
    /// the packet came from; where no read gives a packet, the error of the
    /// first read is reported. The pending bytes are left as they are.
    pub fn next_packet<I: InPacket>(&self) -> (decoded: Decoded<I>)
        ensures
            self@.len() == 0 <==> decoded is Empty,
            decoded matches Decoded::Packet { consumed, .. } ==> consumed <= self@.len(),
            decoded matches Decoded::Packet { packet, consumed } ==> exists|
                raw: (Result<I, std::io::Error>, usize),
            |
                {
                    &&& #[trigger] reads::<I>(self@, raw)
                    &&& raw.1 == consumed
                    &&& match raw.0 {
                        Ok(p) => p == packet,
                        Err(_) => zlib_inflate(self@) matches Some(inflated) && exists|
                            retry: (Result<I, std::io::Error>, usize),
                        |
                            #[trigger] reads::<I>(inflated, retry) && retry.0 == Ok::<
                                I,
                                std::io::Error,
                            >(packet),
                    }
                },
            decoded matches Decoded::Failed(error) ==> exists|
                raw: (Result<I, std::io::Error>, usize),
            |
                {
                    &&& #[trigger] reads::<I>(self@, raw)
                    &&& raw.0 matches Err(e) && error == NetError::Io(e)
                    &&& zlib_inflate(self@) matches Some(inflated) ==> exists|
                        retry: (Result<I, std::io::Error>, usize),
                    |
                        #[trigger] reads::<I>(inflated, retry) && retry.0 is Err
                },
    {
        if self.bytes.len() == 0 {
            return Decoded::Empty;
        }
        let pending = self.bytes.as_slice();
        let (first, position) = I::read(pending);
        let ghost raw = (first, position);
        assert(reads::<I>(self@, raw));
        let ghost mut second: Option<(Result<I, std::io::Error>, usize)> = None;
        let retry = match &first {
            Ok(_) => None,
            Err(_) => match inflate_zlib(pending) {
                Some(inflated) => {
                    let answer = I::read(inflated.as_slice());
                    proof {
                        assert(reads::<I>(inflated@, answer));
                        second = Some(answer);
                    }
                    Some(answer.0)
                },
                None => None,
            },
        };
        let decoded = settle_read(first, position, retry);
        proof {
            if let Some(answer) = second {
                assert(reads::<I>(zlib_inflate(self@)->0, answer));
            }
        }
        decoded
    }
}

/// Whether `result` is something that `I::read` may answer on a slice that
/// holds `bytes`.
pub open spec fn reads<I: InPacket>(bytes: Seq<u8>, result: (Result<I, std::io::Error>, usize)) -> bool {
    exists|s: &[u8]| #[trigger] call_ensures(I::read, (s,), result) && s@ == bytes
}

/// Received bytes stay in order: appending `data` to the pending bytes and
/// then consuming `count` of the bytes that were pending before leaves the
/// rest of those, followed by `data`.
pub proof fn lemma_extend_then_consume(pending: Seq<u8>, data: Seq<u8>, count: int)
    requires
        0 <= count <= pending.len(),
    ensures
        (pending + data).subrange(count, (pending.len() + data.len()) as int) == pending.subrange(
            count,
            pending.len() as int,
        ) + data,
{
    assert((pending + data).subrange(count, (pending.len() + data.len()) as int) =~= pending.subrange(
        count,
        pending.len() as int,
    ) + data);
}

/// Consuming the bytes of two packets one after the other is consuming the
/// bytes of both at once.
pub proof fn lemma_consume_twice(pending: Seq<u8>, first: int, second: int)
    requires
        0 <= first,
        0 <= second,
        first + second <= pending.len(),
    ensures
        pending.subrange(first, pending.len() as int).subrange(second, pending.len() - first)
            == pending.subrange(first + second, pending.len() as int),
{
    assert(pending.subrange(first, pending.len() as int).subrange(second, pending.len() - first)
        =~= pending.subrange(first + second, pending.len() as int));
}

/// Framing: where the pending bytes are the encodings of packets one after
/// the other (`encodings[i..]`), the first encoding is at the front, and
/// consuming its length — the count that `next_packet` reports for a reader
/// that goes through exactly one encoding — leaves the encodings that follow
/// it. Once every encoding is consumed nothing is pending, so the packets
/// come out in order and the buffer drains.
pub proof fn lemma_frames_drain(encodings: Seq<Seq<u8>>, i: int)
    requires
        0 <= i < encodings.len(),
    ensures
        ({
            let pending = encodings.skip(i).flatten();
            let first = encodings[i].len();
            &&& first <= pending.len()
            &&& pending.take(first as int) == encodings[i]
            &&& pending.subrange(first as int, pending.len() as int) == encodings.skip(i + 1).flatten()
        }),
        encodings.skip(encodings.len() as int).flatten().len() == 0,
{
    let rest = encodings.skip(i);
    assert(rest.first() == encodings[i]);
    assert(rest.drop_first() =~= encodings.skip(i + 1));
    let pending = rest.flatten();
    assert(pending == encodings[i] + encodings.skip(i + 1).flatten());
    assert(pending.take(encodings[i].len() as int) =~= encodings[i]);
    assert(pending.subrange(encodings[i].len() as int, pending.len() as int) =~= encodings.skip(
        i + 1,
    ).flatten());
    assert(encodings.skip(encodings.len() as int).len() == 0);
}

/// Where every packet takes at least one byte, pending bytes hold at most as
/// many packets as bytes: reading and consuming packets ends.
pub proof fn lemma_frame_count(encodings: Seq<Seq<u8>>)
    requires
        forall|i: int| 0 <= i < encodings.len() ==> #[trigger] encodings[i].len() >= 1,
    ensures
        encodings.len() <= encodings.flatten().len(),
    decreases encodings.len(),
{
    if encodings.len() > 0 {
        let rest = encodings.drop_first();
        assert forall|i: int| 0 <= i < rest.len() implies #[trigger] rest[i].len() >= 1 by {
            assert(rest[i] == encodings[i + 1]);
        }
        lemma_frame_count(rest);
        assert(encodings[0].len() >= 1);
    }
}

} // verus!
