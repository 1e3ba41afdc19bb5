use mc_client::block_pos::BlockPos;
use mc_client::codec::{read_string, read_var_i32, read_var_i64, write_string, write_var_i32, write_var_i64, CodecError, PacketReader, RawPacket};
use mc_client::network::{decodeFrame, encodeFrame, frameLength};
use mc_client::packets::{
    C00Handshake, ConnectionState, SPacketBlockChange, SPacketCustomPayload, SPacketLoginSuccess,
    SPacketLoginSuccessError, SPacketSpawnPosition, SPacketUnloadChunk, SPacketChunkData, SPacketPlayerAbilities,
};

#[test]
fn protocol_340_status_handshake_bytes_match_packetbuffer() {
    let packet = C00Handshake::new("localhost", 25565, ConnectionState::Status).writePacketData().unwrap();
    assert_eq!(packet.id, 0);
    assert_eq!(packet.payload, vec![0xD4, 0x02, 9, b'l', b'o', b'c', b'a', b'l', b'h', b'o', b's', b't', 0x63, 0xDD, 1]);
}

#[test]
fn spawn_position_decodes_var_long_coordinates() {
    let pos = BlockPos::new(-12, 64, 345);
    let mut payload = Vec::new();
    write_var_i64(pos.x as i64, &mut payload);
    write_var_i32(pos.y, &mut payload);
    write_var_i64(pos.z as i64, &mut payload);
    let packet = SPacketSpawnPosition::readPacketData(&RawPacket::new(0x46, payload)).unwrap();
    assert_eq!(packet.getSpawnPos(), pos);
}

#[test]
fn var_int_round_trips_extremes() {
    for value in [0, 1, 127, 128, 255, 25565, i32::MAX, -1, i32::MIN] {
        let mut out = Vec::new();
        write_var_i32(value, &mut out);
        let mut reader = PacketReader::new(&out);
        assert_eq!(read_var_i32(&mut reader), Ok(value));
        assert!(reader.is_empty());
    }
    let mut out = Vec::new();
    write_var_i32(-1, &mut out);
    assert_eq!(out, vec![0xFF, 0xFF, 0xFF, 0xFF, 0x0F]);
    for value in [0i64, 300, i64::MAX, -1, i64::MIN] {
        let mut out = Vec::new();
        write_var_i64(value, &mut out);
        let mut reader = PacketReader::new(&out);
        assert_eq!(read_var_i64(&mut reader), Ok(value));
    }
}

#[test]
fn var_int_errors_consume_nothing() {
    let bytes = [0x80u8, 0x80, 0x80, 0x80, 0x80, 0x01];
    let mut reader = PacketReader::new(&bytes);
    assert_eq!(read_var_i32(&mut reader), Err(CodecError::VarIntTooLarge));
    assert_eq!(reader.remaining(), 6);
    let short = [0x80u8];
    let mut reader = PacketReader::new(&short);
    assert_eq!(read_var_i32(&mut reader), Err(CodecError::UnexpectedEof));
}

#[test]
fn string_round_trip_and_limits() {
    let mut out = Vec::new();
    write_string("h\u{e9}llo", 16, &mut out).unwrap();
    let mut reader = PacketReader::new(&out);
    assert_eq!(read_string(&mut reader, 16).unwrap(), "h\u{e9}llo");
    let mut out = Vec::new();
    assert_eq!(
        write_string("abcdef", 5, &mut out),
        Err(CodecError::StringTooLong { actual: 6, maximum: 5 })
    );
    assert!(out.is_empty());
    let bytes = [2u8, 0xFF, 0xFE];
    let mut reader = PacketReader::new(&bytes);
    assert_eq!(read_string(&mut reader, 16), Err(CodecError::InvalidUtf8));
    let neg = [0xFFu8, 0xFF, 0xFF, 0xFF, 0x0F];
    let mut reader = PacketReader::new(&neg);
    assert_eq!(read_string(&mut reader, 16), Err(CodecError::NegativeLength(-1)));
}

#[test]
fn handshake_refuses_long_host() {
    let host = "h".repeat(256);
    let result = C00Handshake::new(&host, 1, ConnectionState::Login).writePacketData();
    assert_eq!(result, Err(CodecError::StringTooLong { actual: 256, maximum: 255 }));
    let ok = C00Handshake::new("a", 1, ConnectionState::Login);
    assert_eq!(ok.getProtocolVersion(), 340);
    assert_eq!(ok.getRequestedState(), ConnectionState::Login);
    assert_eq!(ConnectionState::Handshaking.id(), -1);
}

#[test]
fn block_change_decodes_and_refuses_trailing_bytes() {
    let pos = BlockPos::new(-3, 70, 12345);
    let mut payload = pos.to_long().to_be_bytes().to_vec();
    write_var_i32(33, &mut payload);
    let packet = SPacketBlockChange::readPacketData(&RawPacket::new(0x0B, payload.clone())).unwrap();
    assert_eq!(packet.getBlockPosition(), pos);
    assert_eq!(packet.getBlockState().getGlobalStateId(), 33);
    payload.push(0);
    assert_eq!(
        SPacketBlockChange::readPacketData(&RawPacket::new(0x0B, payload)).err(),
        Some(CodecError::InvalidData("1 trailing BlockChange bytes".to_string()))
    );
    assert_eq!(
        SPacketBlockChange::readPacketData(&RawPacket::new(0x0B, vec![1, 2])).err(),
        Some(CodecError::UnexpectedEof)
    );
}

#[test]
fn unload_chunk_and_custom_payload_decode() {
    let mut payload = 5i32.to_be_bytes().to_vec();
    payload.extend_from_slice(&(-7i32).to_be_bytes());
    let unload = SPacketUnloadChunk::readPacketData(&RawPacket::new(0x1D, payload)).unwrap();
    assert_eq!((unload.getX(), unload.getZ()), (5, -7));

    let mut payload = Vec::new();
    write_string("MC|Brand", 20, &mut payload).unwrap();
    payload.extend_from_slice(b"vanilla");
    let custom = SPacketCustomPayload::readPacketData(&RawPacket::new(0x18, payload)).unwrap();
    assert_eq!(custom.getChannelName(), "MC|Brand");
    assert_eq!(custom.getBufferData(), b"vanilla");

    let mut big = Vec::new();
    write_string("c", 20, &mut big).unwrap();
    big.extend(std::iter::repeat(0u8).take(1_048_577));
    assert_eq!(
        SPacketCustomPayload::readPacketData(&RawPacket::new(0x18, big)).err(),
        Some(CodecError::PacketTooLarge { actual: 1_048_577, maximum: 1_048_576 })
    );
}

#[test]
fn login_success_parses_uuid_or_reports_it() {
    let mut payload = Vec::new();
    write_string("069a79f4-44e9-4726-a5be-fca90e38aaf5", 36, &mut payload).unwrap();
    write_string("Notch", 16, &mut payload).unwrap();
    let packet = SPacketLoginSuccess::readPacketData(&RawPacket::new(2, payload)).unwrap();
    assert_eq!(packet.getProfile().getName(), "Notch");
    assert_eq!(packet.getProfile().getId(), Some(0x069a79f4_44e9_4726_a5be_fca90e38aaf5));

    let mut bad = Vec::new();
    write_string("not-a-uuid", 36, &mut bad).unwrap();
    write_string("Notch", 16, &mut bad).unwrap();
    match SPacketLoginSuccess::readPacketData(&RawPacket::new(2, bad)) {
        Err(SPacketLoginSuccessError::InvalidUuid(message)) => assert!(!message.is_empty()),
        other => panic!("unexpected {:?}", other),
    }
    assert!(matches!(
        SPacketLoginSuccess::readPacketData(&RawPacket::new(2, vec![])),
        Err(SPacketLoginSuccessError::Codec(CodecError::UnexpectedEof))
    ));
}

#[test]
fn chunk_data_reads_sections_and_block_entities() {
    let mut payload = Vec::new();
    payload.extend_from_slice(&3i32.to_be_bytes());
    payload.extend_from_slice(&(-4i32).to_be_bytes());
    payload.push(1);
    write_var_i32(0b101, &mut payload);
    write_var_i32(3, &mut payload);
    payload.extend_from_slice(&[9, 8, 7]);
    write_var_i32(2, &mut payload);
    // a compound named "" holding an int "x" = 5
    payload.extend_from_slice(&[10, 0, 0, 3, 0, 1, b'x', 0, 0, 0, 5, 0]);
    // an absent compound
    payload.push(0);
    let packet = SPacketChunkData::readPacketData(&RawPacket::new(0x20, payload)).unwrap();
    assert_eq!((packet.getChunkX(), packet.getChunkZ()), (3, -4));
    assert!(packet.doChunkLoad());
    assert_eq!(packet.getExtractedSize(), 0b101);
    assert_eq!(packet.getReadBuffer(), &[9, 8, 7]);
    assert_eq!(packet.getTileEntityTags().len(), 1);
    assert_eq!(packet.getTileEntityTags()[0].getInteger("x"), 5);

    let mut negative = Vec::new();
    negative.extend_from_slice(&[0; 9]);
    write_var_i32(0, &mut negative);
    write_var_i32(-2, &mut negative);
    assert_eq!(
        SPacketChunkData::readPacketData(&RawPacket::new(0x20, negative)).err(),
        Some(CodecError::NegativeLength(-2))
    );
}

#[test]
fn frames_round_trip_and_lengths_are_checked() {
    let packet = RawPacket::new(0x21, vec![1, 2, 3]);
    let frame = encodeFrame(&packet).unwrap();
    assert_eq!(frame, vec![4, 0x21, 1, 2, 3]);
    let back = decodeFrame(&frame).unwrap();
    assert_eq!(back, packet);
    assert_eq!(frameLength(&vec![0x80]), Ok(None));
    assert_eq!(frameLength(&vec![0x80, 0x01]), Ok(Some(128)));
    assert_eq!(frameLength(&vec![0xFF, 0xFF, 0xFF, 0xFF, 0x8F]), Err(CodecError::VarIntTooLarge));
    assert_eq!(frameLength(&vec![0xFF, 0xFF, 0xFF, 0xFF, 0x0F]), Err(CodecError::NegativeLength(-1)));
    assert_eq!(
        frameLength(&vec![0x81, 0x80, 0x80, 0x01]),
        Err(CodecError::PacketTooLarge { actual: 2_097_153, maximum: 2_097_152 })
    );
}

#[test]
fn reads_mcp_flags_and_speeds() {
    let mut payload = vec![0x07];
    payload.extend_from_slice(&0.05_f32.to_bits().to_be_bytes());
    payload.extend_from_slice(&0.1_f32.to_bits().to_be_bytes());
    let packet = SPacketPlayerAbilities::readPacketData(&RawPacket::new(0x2C, payload)).unwrap();
    assert!(packet.isInvulnerable());
    assert!(packet.isFlying());
    assert!(packet.isAllowFlying());
    assert!(!packet.isCreativeMode());
    assert!((f32::from_bits(packet.getFlySpeedBits()) - 0.05).abs() < f32::EPSILON);
    assert!((f32::from_bits(packet.getWalkSpeedBits()) - 0.1).abs() < f32::EPSILON);
}

#[test]
fn spawn_position_and_abilities_refuse_unread_bytes() {
    let mut payload = Vec::new();
    write_var_i64(1, &mut payload);
    write_var_i32(2, &mut payload);
    write_var_i64(3, &mut payload);
    payload.extend_from_slice(&[0; 12]);
    assert_eq!(
        SPacketSpawnPosition::readPacketData(&RawPacket::new(0x46, payload)).err(),
        Some(CodecError::InvalidData("12 unread spawn-position bytes".to_string()))
    );
    let payload = vec![0u8; 10];
    assert_eq!(
        SPacketPlayerAbilities::readPacketData(&RawPacket::new(0x2C, payload)).err(),
        Some(CodecError::InvalidData("1 unread player-abilities bytes".to_string()))
    );
    assert_eq!(
        SPacketPlayerAbilities::readPacketData(&RawPacket::new(0x2C, vec![0u8; 8])).err(),
        Some(CodecError::UnexpectedEof)
    );
}
