use vstd::prelude::*;
use crate::block_pos::{BlockPos, IBlockState, packed_x, packed_y, packed_z};
use crate::codec::{
    CodecError, RawPacket, PacketReader, parse_var_i32, parse_var_i64, parse_string, be_u32, be_u64,
    encode_var_i32, encode_string, encode_u16_be, utf16_len, read_i32_be, read_i64_be, read_var_i32,
    read_var_i64, read_string, write_var_i32, write_string, write_u16_be, lemma_utf8_len_le_utf16,
    lemma_var_scan_bound,
};
use crate::profile::{GameProfile, parse_uuid, uuid_parse, uuid_result_view};
use crate::nbt::{NBTTagCompound, Nbt, nbt_root, read_nbt_compound, lemma_root_bound};
use crate::codec::{read_bool, read_u8};
use crate::util::{decimal, decimal_u64};

verus! {

/// Protocol state of a connection.
#[derive(Debug, Clone, Copy, PartialEq, Eq, Hash)]
pub enum ConnectionState {
    Handshaking,
    Play,
    Status,
    Login,
}

/// The protocol's number for a connection state.
pub open spec fn state_number(s: ConnectionState) -> i32 {
    match s {
        ConnectionState::Handshaking => -1i32,
        ConnectionState::Play => 0,
        ConnectionState::Status => 1,
        ConnectionState::Login => 2,
    }
}

/// The protocol's numbers of the connection states: handshaking -1, play
/// 0, status 1, login 2; no two states share a number.
pub proof fn lemma_state_numbers()
    ensures
        state_number(ConnectionState::Handshaking) == -1,
        state_number(ConnectionState::Play) == 0,
        state_number(ConnectionState::Status) == 1,
        state_number(ConnectionState::Login) == 2,
        forall|a: ConnectionState, b: ConnectionState| state_number(a) == state_number(b) ==> a == b,
{
}

/// A handshake that asks for the status, login or play state ends with
/// that state's number as a single byte, so a login handshake ends in `2`.
pub proof fn lemma_handshake_requests_state(version: i32, ip: Seq<char>, port: u16, state: ConnectionState)
    requires
        state != ConnectionState::Handshaking,
    ensures
        handshake_payload(version, ip, port, state).last() == state_number(state) as u8,
        state == ConnectionState::Login ==> handshake_payload(version, ip, port, state).last() == 2,
{
    let n = state_number(state);
    assert(0 <= n <= 2);
    assert((n as u32) < 0x80);
    assert(encode_var_i32(n) == seq![(n as u32) as u8]);
    let prefix = encode_var_i32(version) + encode_string(ip) + encode_u16_be(port);
    assert((prefix + seq![(n as u32) as u8]).last() == (n as u32) as u8);
}

impl ConnectionState {
    /// The protocol's number for this state.
    pub fn id(&self) -> (n: i32)
        ensures
            n == state_number(*self),
    {
        match self {
            ConnectionState::Handshaking => -1i32,
            ConnectionState::Play => 0,
            ConnectionState::Status => 1,
            ConnectionState::Login => 2,
        }
    }
}

/// Protocol version of this client.
pub const PROTOCOL_VERSION: i32 = 340;

/// Longest server address a handshake carries, in UTF-16 units.
pub const MAX_HANDSHAKE_HOST: usize = 255;

/// Payload of a handshake.
pub open spec fn handshake_payload(version: i32, ip: Seq<char>, port: u16, state: ConnectionState) -> Seq<u8> {
    encode_var_i32(version) + encode_string(ip) + encode_u16_be(port) + encode_var_i32(state_number(state))
}

/// The first packet of a connection: protocol version, server address and
/// the state to switch to.
#[derive(Debug, Clone, PartialEq, Eq)]
pub struct C00Handshake {
    protocolVersion: i32,
    ip: String,
    port: u16,
    requestedState: ConnectionState,
}

impl C00Handshake {
    pub closed spec fn protocol_version(&self) -> i32 {
        self.protocolVersion
    }

    pub closed spec fn host(&self) -> Seq<char> {
        self.ip@
    }

    pub closed spec fn spec_port(&self) -> u16 {
        self.port
    }

    pub closed spec fn requested_state(&self) -> ConnectionState {
        self.requestedState
    }

    /// A handshake for this client's protocol version.
    pub fn new(ip: &str, port: u16, requestedState: ConnectionState) -> (h: C00Handshake)
        ensures
            h.protocol_version() == PROTOCOL_VERSION,
            h.host() == ip@,
            h.spec_port() == port,
            h.requested_state() == requestedState,
    {
        C00Handshake { protocolVersion: PROTOCOL_VERSION, ip: String::from_str(ip), port, requestedState }
    }

    /// Encodes the handshake as packet `0`; fails when the address is longer
    /// than 255 UTF-16 units.
    pub fn writePacketData(&self) -> (res: Result<RawPacket, CodecError>)
        ensures
            utf16_len(self.host()) <= MAX_HANDSHAKE_HOST ==> res is Ok && res->Ok_0.id == 0
                && res->Ok_0.payload@ == handshake_payload(
                self.protocol_version(),
                self.host(),
                self.spec_port(),
                self.requested_state(),
            ),
            utf16_len(self.host()) > MAX_HANDSHAKE_HOST ==> res == Err::<RawPacket, CodecError>(
                CodecError::StringTooLong { actual: utf16_len(self.host()) as usize, maximum: MAX_HANDSHAKE_HOST },
            ),
    {
        let mut payload: Vec<u8> = Vec::new();
        write_var_i32(self.protocolVersion, &mut payload);
        proof {
            lemma_utf8_len_le_utf16(self.ip@);
        }
        match write_string(self.ip.as_str(), MAX_HANDSHAKE_HOST, &mut payload) {
            Ok(()) => {},
            Err(e) => {
                return Err(e);
            },
        }
        write_u16_be(self.port, &mut payload);
        write_var_i32(self.requestedState.id(), &mut payload);
        Ok(RawPacket::new(0, payload))
    }

    /// The state the connection switches to.
    pub fn getRequestedState(&self) -> (s: ConnectionState)
        ensures
            s == self.requested_state(),
    {
        self.requestedState
    }

    /// The protocol version sent.
    pub fn getProtocolVersion(&self) -> (v: i32)
        ensures
            v == self.protocol_version(),
    {
        self.protocolVersion
    }
}

/// The text of the error for `n` bytes left over after a packet's last
/// field: the count, then `what`.
pub open spec fn leftover_message(n: nat, what: Seq<char>) -> Seq<char> {
    decimal(n as int) + what
}

/// The error for `n` bytes left over after a packet's last field.
fn leftover_error(n: usize, what: &str) -> (e: CodecError)
    ensures
        e matches CodecError::InvalidData(m) && m@ == leftover_message(n as nat, what@),
{
    let m = decimal_u64(n as u64).concat(what);
    CodecError::InvalidData(m)
}

/// Decoding of a block-change payload: the packed position (eight bytes,
/// big-endian) and the state id (VarInt), with the bytes they take.
pub open spec fn parse_block_change(s: Seq<u8>) -> Result<(i64, i32, nat), CodecError> {
    if s.len() < 8 {
        Err(CodecError::UnexpectedEof)
    } else {
        match parse_var_i32(s.skip(8)) {
            Err(e) => Err(e),
            Ok((state, n)) => Ok((be_u64(s) as i64, state, 8 + n)),
        }
    }
}

/// A single block changed.
#[derive(Debug, Clone, Copy, PartialEq, Eq)]
pub struct SPacketBlockChange {
    blockPosition: BlockPos,
    blockState: IBlockState,
}

impl SPacketBlockChange {
    pub closed spec fn position(&self) -> BlockPos {
        self.blockPosition
    }

    pub closed spec fn state(&self) -> IBlockState {
        self.blockState
    }

    /// Decodes the payload; see [`parse_block_change`]. Bytes left after
    /// the state id are refused.
    pub fn readPacketData(packet: &RawPacket) -> (res: Result<SPacketBlockChange, CodecError>)
        ensures
            match parse_block_change(packet.payload@) {
                Ok((pos, state, used)) => if used < packet.payload@.len() {
                    res matches Err(CodecError::InvalidData(m)) && m@ == leftover_message(
                        (packet.payload@.len() - used) as nat,
                        " trailing BlockChange bytes"@,
                    )
                } else {
                    res is Ok && {
                        let p = res->Ok_0;
                        &&& p.position().x == packed_x(pos)
                        &&& p.position().y == packed_y(pos)
                        &&& p.position().z == packed_z(pos)
                        &&& p.state().spec_id() == state
                    }
                },
                Err(e) => res == Err::<SPacketBlockChange, CodecError>(e),
            },
    {
        let mut input = PacketReader::new(packet.payload.as_slice());
        let ghost s = input.rest();
        let packed = match read_i64_be(&mut input) {
            Ok(v) => v,
            Err(e) => {
                return Err(e);
            },
        };
        let state = match read_var_i32(&mut input) {
            Ok(v) => v,
            Err(e) => {
                return Err(e);
            },
        };
        if !input.is_empty() {
            let n = input.remaining();
            proof {
                let m = parse_var_i32(s.skip(8))->Ok_0.1;
                lemma_var_scan_bound(s.skip(8), 0, 5);
                assert(input.rest() =~= s.skip((8 + m) as int));
            }
            return Err(leftover_error(n, " trailing BlockChange bytes"));
        }
        Ok(SPacketBlockChange {
            blockPosition: BlockPos::from_long(packed),
            blockState: IBlockState::fromGlobalStateId(state),
        })
    }

    /// The new state.
    pub fn getBlockState(&self) -> (s: IBlockState)
        ensures
            s == self.state(),
    {
        self.blockState
    }

    /// Where the block changed.
    pub fn getBlockPosition(&self) -> (p: BlockPos)
        ensures
            p == self.position(),
    {
        self.blockPosition
    }
}

/// Decoding of a spawn-position payload: `x` as a VarLong, `y` as a VarInt,
/// `z` as a VarLong (the longs keep their low 32 bits), with the bytes they
/// take.
pub open spec fn parse_spawn_position(s: Seq<u8>) -> Result<(i32, i32, i32, nat), CodecError> {
    match parse_var_i64(s) {
        Err(e) => Err(e),
        Ok((x, n1)) => match parse_var_i32(s.skip(n1 as int)) {
            Err(e) => Err(e),
            Ok((y, n2)) => match parse_var_i64(s.skip((n1 + n2) as int)) {
                Err(e) => Err(e),
                Ok((z, n3)) => Ok((x as i32, y, z as i32, n1 + n2 + n3)),
            },
        },
    }
}

/// The world's spawn point.
#[derive(Debug, Clone, Copy, PartialEq, Eq)]
pub struct SPacketSpawnPosition {
    pos: BlockPos,
}

impl SPacketSpawnPosition {
    pub closed spec fn position(&self) -> BlockPos {
        self.pos
    }

    /// Decodes the payload; see [`parse_spawn_position`]. Bytes left after
    /// `z` are refused.
    pub fn readPacketData(packet: &RawPacket) -> (res: Result<SPacketSpawnPosition, CodecError>)
        ensures
            match parse_spawn_position(packet.payload@) {
                Ok((x, y, z, used)) => if used < packet.payload@.len() {
                    res matches Err(CodecError::InvalidData(m)) && m@ == leftover_message(
                        (packet.payload@.len() - used) as nat,
                        " unread spawn-position bytes"@,
                    )
                } else {
                    res is Ok && res->Ok_0.position() == BlockPos { x, y, z }
                },
                Err(e) => res == Err::<SPacketSpawnPosition, CodecError>(e),
            },
    {
        let mut input = PacketReader::new(packet.payload.as_slice());
        let ghost s = input.rest();
        let x = match read_var_i64(&mut input) {
            Ok(v) => v,
            Err(e) => {
                return Err(e);
            },
        };
        let ghost n1 = parse_var_i64(s)->Ok_0.1;
        proof {
            lemma_var_scan_bound(s, 0, 10);
        }
        let y = match read_var_i32(&mut input) {
            Ok(v) => v,
            Err(e) => {
                return Err(e);
            },
        };
        let ghost n2 = parse_var_i32(s.skip(n1 as int))->Ok_0.1;
        proof {
            lemma_var_scan_bound(s.skip(n1 as int), 0, 5);
            assert(input.rest() =~= s.skip((n1 + n2) as int));
        }
        let z = match read_var_i64(&mut input) {
            Ok(v) => v,
            Err(e) => {
                return Err(e);
            },
        };
        proof {
            let n3 = parse_var_i64(s.skip((n1 + n2) as int))->Ok_0.1;
            lemma_var_scan_bound(s.skip((n1 + n2) as int), 0, 10);
            assert(input.rest() =~= s.skip((n1 + n2 + n3) as int));
        }
        if !input.is_empty() {
            return Err(leftover_error(input.remaining(), " unread spawn-position bytes"));
        }
        Ok(SPacketSpawnPosition {
            pos: BlockPos::new(#[verifier::truncate] (x as i32), y, #[verifier::truncate] (z as i32)),
        })
    }

    /// The spawn point.
    pub fn getSpawnPos(&self) -> (p: BlockPos)
        ensures
            p == self.position(),
    {
        self.pos
    }
}

/// Decoding of an unload-chunk payload: two big-endian `i32` chunk
/// coordinates (anything after them is ignored).
pub open spec fn parse_unload_chunk(s: Seq<u8>) -> Result<(i32, i32), CodecError> {
    if s.len() < 8 {
        Err(CodecError::UnexpectedEof)
    } else {
        Ok((be_u32(s) as i32, be_u32(s.skip(4)) as i32))
    }
}

/// A chunk column to forget.
#[derive(Debug, Clone, Copy, PartialEq, Eq)]
pub struct SPacketUnloadChunk {
    x: i32,
    z: i32,
}

impl SPacketUnloadChunk {
    pub closed spec fn chunk_x(&self) -> i32 {
        self.x
    }

    pub closed spec fn chunk_z(&self) -> i32 {
        self.z
    }

    /// Decodes the payload; see [`parse_unload_chunk`].
    pub fn readPacketData(packet: &RawPacket) -> (res: Result<SPacketUnloadChunk, CodecError>)
        ensures
            match parse_unload_chunk(packet.payload@) {
                Ok((x, z)) => res is Ok && res->Ok_0.chunk_x() == x && res->Ok_0.chunk_z() == z,
                Err(e) => res == Err::<SPacketUnloadChunk, CodecError>(e),
            },
    {
        let mut input = PacketReader::new(packet.payload.as_slice());
        let ghost s = input.rest();
        let x = match read_i32_be(&mut input) {
            Ok(v) => v,
            Err(e) => {
                return Err(e);
            },
        };
        let z = match read_i32_be(&mut input) {
            Ok(v) => v,
            Err(e) => {
                return Err(e);
            },
        };
        Ok(SPacketUnloadChunk { x, z })
    }

    /// Chunk x coordinate.
    pub fn getX(&self) -> (x: i32)
        ensures
            x == self.chunk_x(),
    {
        self.x
    }

    /// Chunk z coordinate.
    pub fn getZ(&self) -> (z: i32)
        ensures
            z == self.chunk_z(),
    {
        self.z
    }
}

/// Longest channel name of a plugin message, in UTF-16 units.
pub const MAX_CHANNEL_NAME: usize = 20;

/// Largest plugin-message body, in bytes.
pub const MAX_CUSTOM_PAYLOAD: usize = 1_048_576;

/// Decoding of a plugin-message payload: the channel name (at most 20
/// units), then the body, every remaining byte (at most 1 MiB).
pub open spec fn parse_custom_payload(s: Seq<u8>) -> Result<(Seq<char>, Seq<u8>), CodecError> {
    match parse_string(s, MAX_CHANNEL_NAME as nat) {
        Err(e) => Err(e),
        Ok((channel, n)) => if s.len() - n > MAX_CUSTOM_PAYLOAD {
            Err(CodecError::PacketTooLarge { actual: (s.len() - n) as usize, maximum: MAX_CUSTOM_PAYLOAD })
        } else {
            Ok((channel, s.skip(n as int)))
        },
    }
}

/// A plugin message: a channel name and its bytes.
#[derive(Debug, Clone, PartialEq, Eq)]
pub struct SPacketCustomPayload {
    channel: String,
    data: Vec<u8>,
}

impl SPacketCustomPayload {
    pub closed spec fn channel(&self) -> Seq<char> {
        self.channel@
    }

    pub closed spec fn body(&self) -> Seq<u8> {
        self.data@
    }

    /// Decodes the payload; see [`parse_custom_payload`].
    pub fn readPacketData(packet: &RawPacket) -> (res: Result<SPacketCustomPayload, CodecError>)
        ensures
            match parse_custom_payload(packet.payload@) {
                Ok((channel, body)) => res is Ok && res->Ok_0.channel() == channel && res->Ok_0.body() == body,
                Err(e) => res == Err::<SPacketCustomPayload, CodecError>(e),
            },
    {
        let mut input = PacketReader::new(packet.payload.as_slice());
        let channel = match read_string(&mut input, MAX_CHANNEL_NAME) {
            Ok(c) => c,
            Err(e) => {
                return Err(e);
            },
        };
        let n = input.remaining();
        if n > MAX_CUSTOM_PAYLOAD {
            return Err(CodecError::PacketTooLarge { actual: n, maximum: MAX_CUSTOM_PAYLOAD });
        }
        let data = input.read_rest();
        Ok(SPacketCustomPayload { channel, data })
    }

    /// The channel name.
    pub fn getChannelName(&self) -> (c: &str)
        ensures
            c@ == self.channel(),
    {
        self.channel.as_str()
    }

    /// The message body.
    pub fn getBufferData(&self) -> (d: &[u8])
        ensures
            d@ == self.body(),
    {
        self.data.as_slice()
    }
}

/// Longest UUID text of a login success, in UTF-16 units.
pub const MAX_UUID_TEXT: usize = 36;

/// Longest player name of a login success, in UTF-16 units.
pub const MAX_PLAYER_NAME: usize = 16;

/// Why a login-success packet was refused.
#[derive(Debug, Clone, PartialEq, Eq)]
pub enum SPacketLoginSuccessError {
    /// The payload did not decode.
    Codec(CodecError),
    /// The UUID text did not parse; the parser's message.
    InvalidUuid(String),
}

/// Decoding of a login-success payload: the UUID text (at most 36 units)
/// and the player name (at most 16); anything after is ignored.
pub open spec fn parse_login_success(s: Seq<u8>) -> Result<(Seq<char>, Seq<char>), CodecError> {
    match parse_string(s, MAX_UUID_TEXT as nat) {
        Err(e) => Err(e),
        Ok((id, n)) => match parse_string(s.skip(n as int), MAX_PLAYER_NAME as nat) {
            Err(e) => Err(e),
            Ok((name, _)) => Ok((id, name)),
        },
    }
}

/// What a login success is, given the parse of its UUID text and its name.
pub open spec fn login_outcome(
    parsed: Result<u128, Seq<char>>,
    name: Seq<char>,
    res: Result<SPacketLoginSuccess, SPacketLoginSuccessError>,
) -> bool {
    match parsed {
        Ok(v) => res is Ok && res->Ok_0.profile().spec_id() == Some(v) && res->Ok_0.profile().spec_name() == name,
        Err(m) => res matches Err(SPacketLoginSuccessError::InvalidUuid(t)) && t@ == m,
    }
}

/// The server accepted the login: the player's profile.
#[derive(Debug, Clone, PartialEq, Eq)]
pub struct SPacketLoginSuccess {
    profile: GameProfile,
}

impl SPacketLoginSuccess {
    pub closed spec fn profile(&self) -> GameProfile {
        self.profile
    }

    /// Decodes the payload (see [`parse_login_success`]) and parses the
    /// UUID text.
    pub fn readPacketData(packet: &RawPacket) -> (res: Result<SPacketLoginSuccess, SPacketLoginSuccessError>)
        ensures
            match parse_login_success(packet.payload@) {
                Err(e) => res == Err::<SPacketLoginSuccess, SPacketLoginSuccessError>(
                    SPacketLoginSuccessError::Codec(e),
                ),
                Ok((id, name)) => login_outcome(uuid_parse(id), name, res),
            },
    {
        let mut input = PacketReader::new(packet.payload.as_slice());
        let uuidText = match read_string(&mut input, MAX_UUID_TEXT) {
            Ok(t) => t,
            Err(e) => {
                return Err(SPacketLoginSuccessError::Codec(e));
            },
        };
        let name = match read_string(&mut input, MAX_PLAYER_NAME) {
            Ok(t) => t,
            Err(e) => {
                return Err(SPacketLoginSuccessError::Codec(e));
            },
        };
        let parsed = parse_uuid(uuidText.as_str());
        Self::fromParsedUuid(parsed, name)
    }

    /// The packet for a parsed UUID text and a name: the profile, or the
    /// parser's message as an error.
    pub fn fromParsedUuid(parsed: Result<u128, String>, name: String) -> (res: Result<
        SPacketLoginSuccess,
        SPacketLoginSuccessError,
    >)
        ensures
            login_outcome(uuid_result_view(parsed), name@, res),
    {
        match parsed {
            Ok(id) => Ok(SPacketLoginSuccess { profile: GameProfile::new(Some(id), name) }),
            Err(message) => Err(SPacketLoginSuccessError::InvalidUuid(message)),
        }
    }

    /// The player's profile.
    pub fn getProfile(&self) -> (p: &GameProfile)
        ensures
            *p == self.profile(),
    {
        &self.profile
    }
}

/// Largest chunk-section buffer, in bytes.
pub const MAX_CHUNK_BUFFER: usize = 2_097_152;

/// Decoding of `count` optional compounds in a row: the compounds present.
pub open spec fn nbt_roots(s: Seq<u8>, count: nat) -> Result<(Seq<Seq<(Seq<char>, Nbt)>>, nat), CodecError>
    decreases count,
{
    if count == 0 {
        Ok((Seq::empty(), 0))
    } else {
        match nbt_root(s) {
            Err(e) => Err(e),
            Ok((opt, n)) => match nbt_roots(s.skip(n as int), (count - 1) as nat) {
                Err(e) => Err(e),
                Ok((rest, m)) => Ok((
                    match opt {
                        Some(c) => seq![c] + rest,
                        None => rest,
                    },
                    n + m,
                )),
            },
        }
    }
}

/// The fields of a chunk-data payload.
pub struct ChunkDataFields {
    pub x: i32,
    pub z: i32,
    pub load: bool,
    pub sections: i32,
    pub buffer: Seq<u8>,
    pub tags: Seq<Seq<(Seq<char>, Nbt)>>,
}

/// Decoding of a chunk-data payload: chunk x and z (big-endian `i32`), the
/// full-chunk flag, the section mask (VarInt), the section buffer (VarInt
/// length, at most 2 MiB), then a VarInt count of optional block-entity
/// compounds; bytes after them are ignored.
pub open spec fn parse_chunk_data(s: Seq<u8>) -> Result<ChunkDataFields, CodecError> {
    if s.len() < 9 {
        Err(CodecError::UnexpectedEof)
    } else {
        match parse_var_i32(s.skip(9)) {
            Err(e) => Err(e),
            Ok((sections, n1)) => match parse_var_i32(s.skip((9 + n1) as int)) {
                Err(e) => Err(e),
                Ok((len, n2)) => {
                    let p = 9 + n1 + n2;
                    if len < 0 {
                        Err(CodecError::NegativeLength(len))
                    } else if len > MAX_CHUNK_BUFFER {
                        Err(CodecError::PacketTooLarge { actual: len as usize, maximum: MAX_CHUNK_BUFFER })
                    } else if s.len() - p < len {
                        Err(CodecError::UnexpectedEof)
                    } else {
                        match parse_var_i32(s.skip(p + len)) {
                            Err(e) => Err(e),
                            Ok((count, n3)) => if count < 0 {
                                Err(CodecError::NegativeLength(count))
                            } else {
                                match nbt_roots(s.skip(p + len + n3), count as nat) {
                                    Err(e) => Err(e),
                                    Ok((tags, _)) => Ok(
                                        ChunkDataFields {
                                            x: be_u32(s) as i32,
                                            z: be_u32(s.skip(4)) as i32,
                                            load: s[8] != 0,
                                            sections,
                                            buffer: s.subrange(p as int, p + len),
                                            tags,
                                        },
                                    ),
                                }
                            },
                        }
                    }
                },
            },
        }
    }
}

/// A chunk-data decoding given its leading fields and the decoding of its
/// block entities.
pub open spec fn chunk_result(
    x: i32,
    z: i32,
    load: bool,
    sections: i32,
    buffer: Seq<u8>,
    r: Result<(Seq<Seq<(Seq<char>, Nbt)>>, nat), CodecError>,
) -> Result<ChunkDataFields, CodecError> {
    match r {
        Err(e) => Err(e),
        Ok((tags, _)) => Ok(ChunkDataFields { x, z, load, sections, buffer, tags }),
    }
}

/// One more optional compound read moves the rest of a run of reads
/// along.
proof fn lemma_roots_step(
    t: Seq<u8>,
    used: nat,
    k: nat,
    total: nat,
    done: Seq<Seq<(Seq<char>, Nbt)>>,
)
    requires
        used <= t.len(),
        k > 0,
        nbt_root(t.skip(used as int)) is Ok,
        nbt_roots(t, total) == after_roots(done, used, nbt_roots(t.skip(used as int), k)),
    ensures
        ({
            let (opt, n) = nbt_root(t.skip(used as int))->Ok_0;
            &&& used + n <= t.len()
            &&& nbt_roots(t, total) == after_roots(
                match opt {
                    Some(c) => done.push(c),
                    None => done,
                },
                used + n,
                nbt_roots(t.skip((used + n) as int), (k - 1) as nat),
            )
        }),
{
    let cur = t.skip(used as int);
    let (opt, n) = nbt_root(cur)->Ok_0;
    lemma_root_bound(cur);
    assert(cur.skip(n as int) =~= t.skip((used + n) as int));
    match nbt_roots(cur.skip(n as int), (k - 1) as nat) {
        Ok((rest, m)) => {
            match opt {
                Some(c) => {
                    assert(done + (seq![c] + rest) =~= done.push(c) + rest);
                },
                None => {},
            }
        },
        Err(_) => {},
    }
}

/// What a run of compound reads has produced so far, with the rest to come.
pub open spec fn after_roots(
    done: Seq<Seq<(Seq<char>, Nbt)>>,
    used: nat,
    r: Result<(Seq<Seq<(Seq<char>, Nbt)>>, nat), CodecError>,
) -> Result<(Seq<Seq<(Seq<char>, Nbt)>>, nat), CodecError> {
    match r {
        Ok((rest, m)) => Ok((done + rest, used + m)),
        Err(e) => Err(e),
    }
}

/// A chunk column's data: position, section mask, packed sections and
/// block entities.
#[derive(Debug)]
pub struct SPacketChunkData {
    chunkX: i32,
    chunkZ: i32,
    availableSections: i32,
    buffer: Vec<u8>,
    tileEntityTags: Vec<NBTTagCompound>,
    loadChunk: bool,
}

impl SPacketChunkData {
    pub closed spec fn fields(&self) -> ChunkDataFields {
        ChunkDataFields {
            x: self.chunkX,
            z: self.chunkZ,
            load: self.loadChunk,
            sections: self.availableSections,
            buffer: self.buffer@,
            tags: self.tileEntityTags@.map_values(|c: NBTTagCompound| c.view()),
        }
    }

    /// Decodes the payload; see [`parse_chunk_data`].
    pub fn readPacketData(packet: &RawPacket) -> (res: Result<SPacketChunkData, CodecError>)
        ensures
            match parse_chunk_data(packet.payload@) {
                Ok(f) => res is Ok && res->Ok_0.fields() == f,
                Err(e) => res == Err::<SPacketChunkData, CodecError>(e),
            },
    {
        let mut input = PacketReader::new(packet.payload.as_slice());
        let ghost s = input.rest();
        if input.remaining() < 9 {
            return Err(CodecError::UnexpectedEof);
        }
        let chunkX = match read_i32_be(&mut input) {
            Ok(v) => v,
            Err(e) => {
                return Err(e);
            },
        };
        let chunkZ = match read_i32_be(&mut input) {
            Ok(v) => v,
            Err(e) => {
                return Err(e);
            },
        };
        let loadChunk = match read_bool(&mut input) {
            Ok(v) => v,
            Err(e) => {
                return Err(e);
            },
        };
        proof {
            assert(input.rest() =~= s.skip(9));
            assert(s.skip(4) =~= s.skip(4));
        }
        let availableSections = match read_var_i32(&mut input) {
            Ok(v) => v,
            Err(e) => {
                return Err(e);
            },
        };
        let ghost n1 = parse_var_i32(s.skip(9))->Ok_0.1;
        proof {
            lemma_var_scan_bound(s.skip(9), 0, 5);
            assert(input.rest() =~= s.skip((9 + n1) as int));
        }
        let length = match read_var_i32(&mut input) {
            Ok(v) => v,
            Err(e) => {
                return Err(e);
            },
        };
        let ghost n2 = parse_var_i32(s.skip((9 + n1) as int))->Ok_0.1;
        let ghost p = 9 + n1 + n2;
        proof {
            lemma_var_scan_bound(s.skip((9 + n1) as int), 0, 5);
            assert(input.rest() =~= s.skip(p as int));
        }
        if length < 0 {
            return Err(CodecError::NegativeLength(length));
        }
        if length as usize > MAX_CHUNK_BUFFER {
            return Err(CodecError::PacketTooLarge { actual: length as usize, maximum: MAX_CHUNK_BUFFER });
        }
        if input.remaining() < length as usize {
            return Err(CodecError::UnexpectedEof);
        }
        let buffer = match input.read_bytes(length as usize) {
            Ok(b) => b,
            Err(e) => {
                return Err(e);
            },
        };
        proof {
            assert(buffer@ =~= s.subrange(p as int, p + length));
            assert(input.rest() =~= s.skip(p + length));
        }
        let count = match read_var_i32(&mut input) {
            Ok(v) => v,
            Err(e) => {
                return Err(e);
            },
        };
        let ghost n3 = parse_var_i32(s.skip(p + length))->Ok_0.1;
        let ghost q = p + length + n3;
        proof {
            lemma_var_scan_bound(s.skip(p + length), 0, 5);
            assert(input.rest() =~= s.skip(q));
        }
        if count < 0 {
            return Err(CodecError::NegativeLength(count));
        }
        let total = count as usize;
        let ghost t = s.skip(q);
        let mut tags: Vec<NBTTagCompound> = Vec::new();
        let mut i: usize = 0;
        let ghost mut used: nat = 0;
        let ghost mut done: Seq<Seq<(Seq<char>, Nbt)>> = Seq::empty();
        proof {
            assert(t.skip(0) =~= t);
            match nbt_roots(t, total as nat) {
                Ok((rest, m)) => {
                    assert(Seq::<Seq<(Seq<char>, Nbt)>>::empty() + rest =~= rest);
                },
                Err(_) => {},
            }
            assert(tags@.map_values(|c: NBTTagCompound| c.view()) =~= done);
            assert(parse_chunk_data(s) == chunk_result(chunkX, chunkZ, loadChunk, availableSections, buffer@,
                nbt_roots(t, total as nat)));
        }
        while i < total
            invariant
                input.wf(),
                i <= total,
                used <= t.len(),
                input.rest() == t.skip(used as int),
                s == packet.payload@,
                parse_chunk_data(s) == chunk_result(chunkX, chunkZ, loadChunk, availableSections, buffer@,
                    nbt_roots(t, total as nat)),
                tags@.map_values(|c: NBTTagCompound| c.view()) == done,
                nbt_roots(t, total as nat) == after_roots(done, used, nbt_roots(t.skip(used as int), (total - i) as nat)),
            decreases total - i,
        {
            let ghost cur = input.rest();
            let ghost before = tags@;
            match read_nbt_compound(&mut input) {
                Ok(Some(c)) => {
                    tags.push(c);
                    proof {
                        assert(tags@.map_values(|c: NBTTagCompound| c.view()) =~= done.push(c.view()));
                    }
                },
                Ok(None) => {},
                Err(e) => {
                    proof {
                        assert(nbt_roots(cur, (total - i) as nat) == Err::<
                            (Seq<Seq<(Seq<char>, Nbt)>>, nat),
                            CodecError,
                        >(e));
                    }
                    return Err(e);
                },
            }
            proof {
                let (opt, n) = nbt_root(cur)->Ok_0;
                lemma_roots_step(t, used, (total - i) as nat, total as nat, done);
                done = match opt {
                    Some(c) => done.push(c),
                    None => done,
                };
                used = used + n;
            }
            i = i + 1;
        }
        proof {
            assert(t.skip(used as int).len() >= 0);
            assert(done + Seq::<Seq<(Seq<char>, Nbt)>>::empty() =~= done);
        }
        Ok(SPacketChunkData { chunkX, chunkZ, availableSections, buffer, tileEntityTags: tags, loadChunk })
    }

    pub fn getChunkX(&self) -> (x: i32)
        ensures
            x == self.fields().x,
    {
        self.chunkX
    }

    pub fn getChunkZ(&self) -> (z: i32)
        ensures
            z == self.fields().z,
    {
        self.chunkZ
    }

    /// The section mask.
    pub fn getExtractedSize(&self) -> (m: i32)
        ensures
            m == self.fields().sections,
    {
        self.availableSections
    }

    /// Whether this is a full column.
    pub fn doChunkLoad(&self) -> (b: bool)
        ensures
            b == self.fields().load,
    {
        self.loadChunk
    }

    /// The packed sections.
    pub fn getReadBuffer(&self) -> (b: &[u8])
        ensures
            b@ == self.fields().buffer,
    {
        self.buffer.as_slice()
    }

    /// The block entities.
    pub fn getTileEntityTags(&self) -> (t: &[NBTTagCompound])
        ensures
            t@.map_values(|c: NBTTagCompound| c.view()) == self.fields().tags,
    {
        self.tileEntityTags.as_slice()
    }
}

/// Decoding of a player-abilities payload: the flag byte (invulnerable,
/// flying, may fly, creative in bits 0 to 3), then the fly and walk speeds
/// as big-endian IEEE-754 bits: nine bytes.
pub open spec fn parse_player_abilities(s: Seq<u8>) -> Result<(u8, u32, u32), CodecError> {
    if s.len() < 9 {
        Err(CodecError::UnexpectedEof)
    } else {
        Ok((s[0], be_u32(s.skip(1)), be_u32(s.skip(5))))
    }
}

/// The player's abilities as the server sets them; the speeds are kept as
/// their IEEE-754 bits.
#[derive(Debug, Clone, Copy, PartialEq, Eq)]
pub struct SPacketPlayerAbilities {
    invulnerable: bool,
    flying: bool,
    allowFlying: bool,
    creativeMode: bool,
    flySpeed: u32,
    walkSpeed: u32,
}

impl SPacketPlayerAbilities {
    /// The four flags, then the two speed bit patterns.
    pub closed spec fn abilities(&self) -> (bool, bool, bool, bool, u32, u32) {
        (self.invulnerable, self.flying, self.allowFlying, self.creativeMode, self.flySpeed, self.walkSpeed)
    }

    /// Decodes the payload; see [`parse_player_abilities`]. Bytes left
    /// after the walk speed are refused.
    pub fn readPacketData(packet: &RawPacket) -> (res: Result<SPacketPlayerAbilities, CodecError>)
        ensures
            match parse_player_abilities(packet.payload@) {
                Ok((flags, fly, walk)) => if 9 < packet.payload@.len() {
                    res matches Err(CodecError::InvalidData(m)) && m@ == leftover_message(
                        (packet.payload@.len() - 9) as nat,
                        " unread player-abilities bytes"@,
                    )
                } else {
                    res is Ok && res->Ok_0.abilities() == (
                        flags & 1 != 0,
                        flags & 2 != 0,
                        flags & 4 != 0,
                        flags & 8 != 0,
                        fly,
                        walk,
                    )
                },
                Err(e) => res == Err::<SPacketPlayerAbilities, CodecError>(e),
            },
    {
        let mut input = PacketReader::new(packet.payload.as_slice());
        let ghost s = input.rest();
        if input.remaining() < 9 {
            return Err(CodecError::UnexpectedEof);
        }
        let flags = match read_u8(&mut input) {
            Ok(b) => b,
            Err(e) => {
                return Err(e);
            },
        };
        let fly = match read_i32_be(&mut input) {
            Ok(v) => v as u32,
            Err(e) => {
                return Err(e);
            },
        };
        let walk = match read_i32_be(&mut input) {
            Ok(v) => v as u32,
            Err(e) => {
                return Err(e);
            },
        };
        proof {
            assert(s.skip(1).skip(4) =~= s.skip(5));
            assert(input.rest() =~= s.skip(9));
            let a = be_u32(s.skip(1));
            let b = be_u32(s.skip(5));
            assert((a as i32) as u32 == a) by (bit_vector);
            assert((b as i32) as u32 == b) by (bit_vector);
        }
        if !input.is_empty() {
            return Err(leftover_error(input.remaining(), " unread player-abilities bytes"));
        }
        Ok(SPacketPlayerAbilities {
            invulnerable: flags & 1 != 0,
            flying: flags & 2 != 0,
            allowFlying: flags & 4 != 0,
            creativeMode: flags & 8 != 0,
            flySpeed: fly,
            walkSpeed: walk,
        })
    }

    pub fn isInvulnerable(&self) -> (b: bool)
        ensures
            b == self.abilities().0,
    {
        self.invulnerable
    }

    pub fn isFlying(&self) -> (b: bool)
        ensures
            b == self.abilities().1,
    {
        self.flying
    }

    pub fn isAllowFlying(&self) -> (b: bool)
        ensures
            b == self.abilities().2,
    {
        self.allowFlying
    }

    pub fn isCreativeMode(&self) -> (b: bool)
        ensures
            b == self.abilities().3,
    {
        self.creativeMode
    }

    /// The fly speed's IEEE-754 bits.
    pub fn getFlySpeedBits(&self) -> (v: u32)
        ensures
            v == self.abilities().4,
    {
        self.flySpeed
    }

    /// The walk speed's IEEE-754 bits.
    pub fn getWalkSpeedBits(&self) -> (v: u32)
        ensures
            v == self.abilities().5,
    {
        self.walkSpeed
    }
}

} // verus!
