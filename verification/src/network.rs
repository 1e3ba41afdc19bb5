use vstd::prelude::*;
use crate::codec::{
    CodecError, RawPacket, PacketReader, parse_var_i32, encode_var_i32, read_var_i32, write_var_i32,
    lemma_var_i32_roundtrip, lemma_var_scan_bound,
};

verus! {

/// Why a connection operation failed.
#[derive(Debug, Clone, PartialEq, Eq)]
pub enum NetworkManagerError {
    /// The host name did not resolve.
    UnknownHost,
    /// No data arrived in time.
    Timeout,
    /// The remote host closed the connection.
    Closed,
    /// Another I/O failure, by its message.
    Io(String),
    /// A frame did not decode.
    Codec(CodecError),
}

/// Longest frame body a connection accepts, in bytes.
pub const MAX_FRAME_LENGTH: usize = 2_097_152;

/// What the length prefix read so far says: more bytes are needed
/// (`None`, while the last byte continues the VarInt and fewer than five
/// were read), the body length, or why the frame is refused.
pub open spec fn frame_length_outcome(prefix: Seq<u8>) -> Result<Option<usize>, CodecError> {
    if prefix.last() >= 0x80 {
        if prefix.len() >= 5 {
            Err(CodecError::VarIntTooLarge)
        } else {
            Ok(None)
        }
    } else {
        match parse_var_i32(prefix) {
            Err(e) => Err(e),
            Ok((len, _)) => if len < 0 {
                Err(CodecError::NegativeLength(len))
            } else if len > MAX_FRAME_LENGTH {
                Err(CodecError::PacketTooLarge { actual: len as usize, maximum: MAX_FRAME_LENGTH })
            } else {
                Ok(Some(len as usize))
            },
        }
    }
}

/// Decides what the length prefix read so far says; see
/// [`frame_length_outcome`].
pub fn frameLength(prefix: &Vec<u8>) -> (r: Result<Option<usize>, CodecError>)
    requires
        prefix@.len() >= 1,
    ensures
        r == frame_length_outcome(prefix@),
{
    let last = prefix[prefix.len() - 1];
    if last >= 0x80 {
        if prefix.len() >= 5 {
            return Err(CodecError::VarIntTooLarge);
        }
        return Ok(None);
    }
    let mut reader = PacketReader::new(prefix.as_slice());
    match read_var_i32(&mut reader) {
        Err(e) => Err(e),
        Ok(len) => {
            if len < 0 {
                Err(CodecError::NegativeLength(len))
            } else if len as usize > MAX_FRAME_LENGTH {
                Err(CodecError::PacketTooLarge { actual: len as usize, maximum: MAX_FRAME_LENGTH })
            } else {
                Ok(Some(len as usize))
            }
        },
    }
}

/// Bytes of a frame: the body length (VarInt), then the body, which is the
/// packet id (VarInt) and the payload.
pub open spec fn frame_bytes(id: i32, payload: Seq<u8>) -> Seq<u8> {
    let body = encode_var_i32(id) + payload;
    encode_var_i32(body.len() as i32) + body
}

/// Decoding of a frame at the start of `s`: packet id, payload and the
/// bytes the frame took. The length must not be negative nor above
/// `MAX_FRAME_LENGTH`, and the body must hold a packet id.
pub open spec fn parse_frame(s: Seq<u8>) -> Result<((i32, Seq<u8>), nat), CodecError> {
    match parse_var_i32(s) {
        Err(e) => Err(e),
        Ok((len, n)) => if len < 0 {
            Err(CodecError::NegativeLength(len))
        } else if len > MAX_FRAME_LENGTH {
            Err(CodecError::PacketTooLarge { actual: len as usize, maximum: MAX_FRAME_LENGTH })
        } else if n + len > s.len() {
            Err(CodecError::UnexpectedEof)
        } else {
            let body = s.subrange(n as int, n + len);
            match parse_var_i32(body) {
                Err(e) => Err(e),
                Ok((id, m)) => Ok(((id, body.skip(m as int)), (n + len) as nat)),
            }
        },
    }
}

/// Frames a packet; fails when the body is longer than `MAX_FRAME_LENGTH`.
pub fn encodeFrame(packet: &RawPacket) -> (r: Result<Vec<u8>, CodecError>)
    ensures
        match r {
            Ok(v) => v@ == frame_bytes(packet.id, packet.payload@),
            Err(e) => e == CodecError::PacketTooLarge {
                actual: if encode_var_i32(packet.id).len() + packet.payload@.len() > usize::MAX {
                    usize::MAX
                } else {
                    (encode_var_i32(packet.id).len() + packet.payload@.len()) as usize
                },
                maximum: MAX_FRAME_LENGTH,
            },
        },
        r is Err <==> encode_var_i32(packet.id).len() + packet.payload@.len() > MAX_FRAME_LENGTH,
{
    let mut body: Vec<u8> = Vec::new();
    write_var_i32(packet.id, &mut body);
    proof {
        lemma_var_i32_roundtrip(packet.id, Seq::empty());
    }
    if packet.payload.len() > MAX_FRAME_LENGTH - body.len() {
        return Err(CodecError::PacketTooLarge {
            actual: body.len().saturating_add(packet.payload.len()),
            maximum: MAX_FRAME_LENGTH,
        });
    }
    let mut i: usize = 0;
    let ghost head = body@;
    while i < packet.payload.len()
        invariant
            i <= packet.payload@.len(),
            body@ == head + packet.payload@.take(i as int),
        decreases packet.payload@.len() - i,
    {
        body.push(packet.payload[i]);
        i = i + 1;
        proof {
            assert(body@ =~= head + packet.payload@.take(i as int));
        }
    }
    proof {
        assert(packet.payload@.take(i as int) =~= packet.payload@);
    }
    let mut frame: Vec<u8> = Vec::new();
    write_var_i32(body.len() as i32, &mut frame);
    let mut j: usize = 0;
    let ghost prefix = frame@;
    while j < body.len()
        invariant
            j <= body@.len(),
            frame@ == prefix + body@.take(j as int),
        decreases body@.len() - j,
    {
        frame.push(body[j]);
        j = j + 1;
        proof {
            assert(frame@ =~= prefix + body@.take(j as int));
        }
    }
    proof {
        assert(body@.take(j as int) =~= body@);
    }
    Ok(frame)
}

/// Decodes the frame at the start of `frame`; see [`parse_frame`].
pub fn decodeFrame(frame: &[u8]) -> (r: Result<RawPacket, CodecError>)
    ensures
        match parse_frame(frame@) {
            Ok(((id, payload), _)) => r is Ok && r->Ok_0.id == id && r->Ok_0.payload@ == payload,
            Err(e) => r == Err::<RawPacket, CodecError>(e),
        },
{
    let mut reader = PacketReader::new(frame);
    let ghost s = frame@;
    let len = match read_var_i32(&mut reader) {
        Ok(v) => v,
        Err(e) => {
            return Err(e);
        },
    };
    let ghost n = parse_var_i32(s)->Ok_0.1;
    proof {
        lemma_var_scan_bound(s, 0, 5);
    }
    if len < 0 {
        return Err(CodecError::NegativeLength(len));
    }
    if len as usize > MAX_FRAME_LENGTH {
        return Err(CodecError::PacketTooLarge { actual: len as usize, maximum: MAX_FRAME_LENGTH });
    }
    let body = match reader.read_bytes(len as usize) {
        Ok(b) => b,
        Err(e) => {
            return Err(e);
        },
    };
    proof {
        assert(body@ =~= s.subrange(n as int, n + len));
    }
    let mut inner = PacketReader::new(body.as_slice());
    let id = match read_var_i32(&mut inner) {
        Ok(v) => v,
        Err(e) => {
            return Err(e);
        },
    };
    let payload = inner.read_rest();
    Ok(RawPacket::new(id, payload))
}

/// Decoding a frame gives back the packet it was made from and takes
/// exactly its bytes, whatever follows.
pub proof fn lemma_frame_roundtrip(id: i32, payload: Seq<u8>, rest: Seq<u8>)
    requires
        encode_var_i32(id).len() + payload.len() <= MAX_FRAME_LENGTH,
    ensures
        parse_frame(frame_bytes(id, payload) + rest) == Ok::<((i32, Seq<u8>), nat), CodecError>(
            ((id, payload), frame_bytes(id, payload).len()),
        ),
{
    let body = encode_var_i32(id) + payload;
    let len = body.len() as i32;
    lemma_var_i32_roundtrip(id, payload);
    assert(frame_bytes(id, payload) + rest =~= encode_var_i32(len) + (body + rest));
    lemma_var_i32_roundtrip(len, body + rest);
    let n = encode_var_i32(len).len();
    assert((frame_bytes(id, payload) + rest).subrange(n as int, n + len) =~= body);
    assert(body.skip(encode_var_i32(id).len() as int) =~= payload);
}

/// `std::io::Error`, carried through unread.
#[verifier::external_type_specification]
#[verifier::external_body]
pub struct ExIoError(std::io::Error);

/// A resource pack of shaders: named resources read as bytes, `None` where
/// the pack has no such resource.
pub trait IShaderPack {
    fn getName(&self) -> &str;

    fn getResourceAsStream(&mut self, resName: &str) -> Result<Option<Vec<u8>>, std::io::Error>;

    fn hasDirectory(&mut self, name: &str) -> bool;

    fn close(&mut self);
}

} // verus!
