use mc_client::block_pos::BlockPos;
use mc_client::profile::Session;
use mc_client::util::{
    ChatType, DataValue, EntityDataManager, EntityEnderCrystal, EnumChatVisibility, EnumHand, EnumSkyBlock,
    ResourceLocation, TextComponentString, WorldType,
};

#[test]
fn session_id_matches_mcp_format() {
    let session = Session::new("Player", "uuid", "access-token", "legacy");
    assert_eq!(session.getSessionID(), "token:access-token:uuid");
}

#[test]
fn protocol_ids_match_mcp() {
    assert_eq!(ChatType::Chat.func_192583_a(), 0);
    assert_eq!(ChatType::System.func_192583_a(), 1);
    assert_eq!(ChatType::GameInfo.func_192583_a(), 2);
    assert_eq!(ChatType::func_192582_a(99), ChatType::Chat);
}

#[test]
fn chat_ids_round_trip() {
    for t in [ChatType::Chat, ChatType::System, ChatType::GameInfo] {
        assert_eq!(ChatType::func_192582_a(t.func_192583_a()), t);
    }
    for v in [EnumChatVisibility::Full, EnumChatVisibility::System, EnumChatVisibility::Hidden] {
        assert_eq!(EnumChatVisibility::getChatVisibility(v.getChatVisibilityId()), v);
    }
    assert_eq!(EnumChatVisibility::getChatVisibility(-4), EnumChatVisibility::Full);
}

#[test]
fn small_enums_have_their_numbers() {
    assert_eq!(EnumHand::MainHand.ordinal(), 0);
    assert_eq!(EnumHand::OffHand.ordinal(), 1);
    assert_eq!(EnumSkyBlock::Sky.defaultLightValue(), 15);
    assert_eq!(EnumSkyBlock::Block.defaultLightValue(), 0);
    assert_eq!(EnumSkyBlock::values(), [EnumSkyBlock::Sky, EnumSkyBlock::Block]);
}

#[test]
fn session_accessors_and_profile() {
    let session = Session::new("Steve", "069a79f444e94726a5befca90e38aaf5", "tok", "mojang");
    assert_eq!(session.getUsername(), "Steve");
    assert_eq!(session.getPlayerID(), "069a79f444e94726a5befca90e38aaf5");
    assert_eq!(session.getToken(), "tok");
    assert_eq!(session.getSessionType(), "mojang");
    let profile = session.getProfile();
    assert_eq!(profile.getName(), "Steve");
    assert_eq!(profile.getId(), Some(0x069a79f4_44e9_4726_a5be_fca90e38aaf5));
    let offline = Session::new("Alex", "uuid", "tok", "legacy");
    assert_eq!(offline.getProfile().getId(), None);
}

#[test]
fn world_type_names_are_normalised() {
    assert_eq!(WorldType::parseWorldType("FLAT").getWorldTypeName(), "flat");
    assert_eq!(WorldType::parseWorldType("Default_1_1").getWorldTypeName(), "default_1_1");
    assert_eq!(WorldType::parseWorldType("custom").getWorldTypeName(), "default");
    let once = WorldType::parseWorldType("AMPLIFIED");
    let twice = WorldType::parseWorldType(once.getWorldTypeName());
    assert_eq!(once, twice);
}

#[test]
fn resource_locations_split_at_the_first_colon() {
    let l = ResourceLocation::parse("Minecraft:Textures/A.png");
    assert_eq!(l.getNamespace(), "minecraft");
    assert_eq!(l.getPath(), "textures/a.png");
    let plain = ResourceLocation::parse("dir/x:y");
    assert_eq!(plain.getNamespace(), "dir/x");
    assert_eq!(plain.getPath(), "y");
    let short = ResourceLocation::parse("a:b");
    assert_eq!(short.getNamespace(), "minecraft");
    assert_eq!(short.getPath(), "b");
    let none = ResourceLocation::parse("textures/gui");
    assert_eq!(none.to_string(), "minecraft:textures/gui");
    assert_eq!(ResourceLocation::new("", "P").to_string(), "minecraft:p");
}

#[test]
fn text_component_keeps_text() {
    assert_eq!(TextComponentString("hello").getUnformattedText(), "hello");
}

#[test]
fn crystal_data_defaults_and_latest_value() {
    let mut data = EntityDataManager::new();
    assert_eq!(EntityEnderCrystal::beamTarget(&data), None);
    assert!(EntityEnderCrystal::shouldShowBottom(&data));
    data.set(7, DataValue::Boolean(false));
    data.set(6, DataValue::OptionalBlockPos(Some(BlockPos::new(1, 2, 3))));
    assert!(!EntityEnderCrystal::shouldShowBottom(&data));
    assert_eq!(EntityEnderCrystal::beamTarget(&data), Some(BlockPos::new(1, 2, 3)));
    data.set(6, DataValue::VarInt(4));
    assert_eq!(EntityEnderCrystal::beamTarget(&data), None);
}

#[test]
fn decimal_text_matches_display() {
    for v in [0i64, 7, 10, 12345, -1, -908, i64::MAX, i64::MIN] {
        assert_eq!(mc_client::util::decimal_string(v), v.to_string());
    }
    assert_eq!(mc_client::util::decimal_u64(u64::MAX), u64::MAX.to_string());
}
