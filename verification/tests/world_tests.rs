use mc_client::block_pos::IBlockState;
use mc_client::block_state_container::{BlockStateContainer, Palette};
use mc_client::chunk::Chunk;
use mc_client::codec::{write_var_i32, CodecError, PacketReader};
use mc_client::section_storage::NibbleArray;

#[test]
fn local_palette_grows_and_preserves_existing_states() {
    let mut container = BlockStateContainer::new();
    for index in 0..20 {
        container.setGlobalStateIdAt(index, index as i32 + 1).unwrap();
    }
    assert!(container.bits() >= 5);
    for index in 0..20 {
        assert_eq!(container.getGlobalStateIdAt(index), index as i32 + 1);
    }
}

#[test]
fn palette_switches_to_registry_after_eight_bits() {
    let mut container = BlockStateContainer::new();
    for index in 0..300 {
        container.setGlobalStateIdAt(index, index as i32 + 1).unwrap();
    }
    assert!(matches!(container.palette(), Palette::Registry));
    assert_eq!(container.getGlobalStateIdAt(299), 300);
}

#[test]
fn render_snapshot_is_copy_on_write_after_block_update() {
    let mut chunk = Chunk::new(0, 0);
    chunk
        .setBlockState(1, 2, 3, IBlockState::fromGlobalStateId(16), true)
        .unwrap();
    let snapshot = chunk.clone();
    chunk
        .setBlockState(1, 2, 3, IBlockState::fromGlobalStateId(32), true)
        .unwrap();
    assert_eq!(snapshot.getGlobalStateId(1, 2, 3), 16);
    assert_eq!(chunk.getGlobalStateId(1, 2, 3), 32);
}

#[test]
fn block_update_only_advances_its_render_section_revision() {
    let mut chunk = Chunk::new(0, 0);
    let before_low = chunk.sectionRevision(1);
    let before_high = chunk.sectionRevision(9);
    chunk
        .setBlockState(1, 20, 3, IBlockState::fromGlobalStateId(16), true)
        .unwrap();
    assert_ne!(chunk.sectionRevision(1), before_low);
    assert_eq!(chunk.sectionRevision(9), before_high);
}

#[test]
fn set_then_get_reads_back_and_keeps_neighbours() {
    let mut chunk = Chunk::new(4, -2);
    let old = chunk
        .setBlockState(15, 255, 15, IBlockState::fromGlobalStateId(42), false)
        .unwrap();
    assert_eq!(old.getGlobalStateId(), 0);
    assert_eq!(chunk.getGlobalStateId(15, 255, 15), 42);
    assert_eq!(chunk.getGlobalStateId(14, 255, 15), 0);
    assert_eq!(chunk.getBlockState(15, 255, 15).getGlobalStateId(), 42);
    let previous = chunk
        .setBlockState(15, 255, 15, IBlockState::fromGlobalStateId(7), false)
        .unwrap();
    assert_eq!(previous.getGlobalStateId(), 42);
}

#[test]
fn store_outside_column_fails_and_changes_nothing() {
    let mut chunk = Chunk::new(0, 0);
    assert!(chunk
        .setBlockState(16, 0, 0, IBlockState::fromGlobalStateId(1), true)
        .is_err());
    assert!(chunk
        .setBlockState(0, 256, 0, IBlockState::fromGlobalStateId(1), true)
        .is_err());
    assert_eq!(chunk.revision(), 0);
    assert_eq!(chunk.getGlobalStateId(16, 0, 0), 0);
}

#[test]
fn negative_state_is_stored_as_air() {
    let mut container = BlockStateContainer::new();
    container.setGlobalStateIdAt(5, 9).unwrap();
    assert_eq!(container.setGlobalStateIdAt(5, -3), Ok(9));
    assert_eq!(container.getGlobalStateIdAt(5), 0);
    assert!(container.setGlobalStateIdAt(4096, 1).is_err());
}

#[test]
fn revisions_wrap_and_dirty_marks_only_one_section() {
    let mut chunk = Chunk::new(0, 0);
    chunk.markSectionDirty(3);
    chunk.markSectionDirty(16);
    assert_eq!(chunk.revision(), 1);
    assert_eq!(chunk.sectionRevision(3), 1);
    assert_eq!(chunk.sectionRevision(4), 0);
    assert_eq!(chunk.sectionRevision(16), 0);
}

#[test]
fn biome_array_needs_a_full_column() {
    let mut chunk = Chunk::new(0, 0);
    chunk.setBiomeArray(&[1u8; 255]);
    assert_eq!(chunk.revision(), 0);
    let mut data = vec![0u8; 300];
    data[0] = 7;
    data[255] = 9;
    chunk.setBiomeArray(&data);
    assert_eq!(chunk.getBiomeArray()[0], 7);
    assert_eq!(chunk.getBiomeArray()[255], 9);
    assert_eq!(chunk.revision(), 1);
    assert_eq!(chunk.sectionRevision(15), 1);
}

#[test]
fn nibble_light_reads_low_half_first() {
    let mut bytes = vec![0u8; 2048];
    bytes[0] = 0xA5;
    let light = NibbleArray::fromBytes(bytes).unwrap();
    assert_eq!(light.get(0, 0, 0), 5);
    assert_eq!(light.get(1, 0, 0), 10);
    assert!(NibbleArray::fromBytes(vec![0u8; 10]).is_none());
}

fn section_bytes(width: u8, palette: &[i32], words: Option<usize>) -> Vec<u8> {
    let mut out = vec![width];
    write_var_i32(palette.len() as i32, &mut out);
    for id in palette {
        write_var_i32(*id, &mut out);
    }
    match words {
        Some(n) => {
            write_var_i32(n as i32, &mut out);
            out.extend(std::iter::repeat(0u8).take(n * 8));
        }
        None => write_var_i32(-1, &mut out),
    }
    out
}

#[test]
fn palettes_longer_than_their_width_are_read() {
    let bytes = section_bytes(4, &[0; 17], None);
    let mut reader = PacketReader::new(&bytes);
    assert_eq!(BlockStateContainer::read(&mut reader).err(), Some(CodecError::NegativeLength(-1)));
    // The width byte, the palette and the word count stay read.
    assert_eq!(reader.remaining(), 0);
    let bytes = section_bytes(4, &[0; 17], Some(256));
    let mut reader = PacketReader::new(&bytes);
    let container = BlockStateContainer::read(&mut reader).expect("section");
    assert_eq!(container.bits(), 4);
    assert!(matches!(container.palette(), Palette::Local(e) if e.len() == 17));
    assert_eq!(reader.remaining(), 0);
}

#[test]
fn an_overlong_palette_grows_or_refuses_the_new_id() {
    let bytes = section_bytes(4, &[0; 17], Some(256));
    let mut container = BlockStateContainer::read(&mut PacketReader::new(&bytes)).unwrap();
    // a new id: the palette grows to five bits, where its 18th entry fits
    assert_eq!(container.setGlobalStateIdAt(3, 7), Ok(0));
    assert_eq!(container.bits(), 5);
    assert_eq!(container.getGlobalStateIdAt(3), 7);
    let bytes = section_bytes(4, &[0; 40], Some(256));
    let mut long = BlockStateContainer::read(&mut PacketReader::new(&bytes)).unwrap();
    // 40 entries do not fit five bits: the palette grows, the store is refused
    assert!(long.setGlobalStateIdAt(3, 7).is_err());
    assert_eq!(long.bits(), 5);
    assert!(matches!(long.palette(), Palette::Local(e) if e.len() == 41));
    assert_eq!(long.getGlobalStateIdAt(3), 0);
}

#[test]
fn a_default_container_is_all_air() {
    let container = BlockStateContainer::default();
    assert_eq!(container.bits(), 4);
    assert_eq!(*container.palette(), Palette::Local(vec![0]));
    assert_eq!(container.getGlobalStateIdAt(0), 0);
    assert_eq!(container.getGlobalStateIdAt(4095), 0);
}

#[test]
fn stores_keep_other_blocks_and_clamp_negative_palette_ids_on_registry_switch() {
    let mut palette: Vec<i32> = vec![-1];
    palette.extend(1..256);
    let bytes = section_bytes(8, &palette, Some(512));
    let mut container = BlockStateContainer::read(&mut PacketReader::new(&bytes)).unwrap();
    assert_eq!(container.getGlobalStateIdAt(0), -1);
    // 256 ids fill eight bits: a new id moves the section to the registry,
    // where the negative id is stored as 0.
    assert_eq!(container.setGlobalStateIdAt(1, 1000), Ok(-1));
    assert_eq!(*container.palette(), Palette::Registry);
    assert_eq!(container.getGlobalStateIdAt(1), 1000);
    assert_eq!(container.getGlobalStateIdAt(0), 0);
    // With non-negative ids every other block keeps its id.
    let bytes = section_bytes(8, &(0..256).collect::<Vec<i32>>(), Some(512));
    let mut plain = BlockStateContainer::read(&mut PacketReader::new(&bytes)).unwrap();
    assert_eq!(plain.setGlobalStateIdAt(1, 1000), Ok(0));
    assert_eq!(plain.getGlobalStateIdAt(1), 1000);
    assert_eq!(plain.getGlobalStateIdAt(0), 0);
    assert_eq!(plain.getGlobalStateIdAt(4095), 0);
}

#[test]
fn failed_section_reads_leave_read_what_came_before() {
    // A negative palette count: the width byte and the count stay read.
    let mut bytes = vec![4u8];
    write_var_i32(-2, &mut bytes);
    bytes.extend_from_slice(&[7, 7, 7]);
    let mut reader = PacketReader::new(&bytes);
    assert_eq!(BlockStateContainer::read(&mut reader).err(), Some(CodecError::NegativeLength(-2)));
    assert_eq!(reader.remaining(), 3);
    // Palette ids run out: the whole ids before the missing one stay read.
    let mut bytes = vec![4u8];
    write_var_i32(3, &mut bytes);
    write_var_i32(300, &mut bytes);
    bytes.push(0x80);
    let mut reader = PacketReader::new(&bytes);
    assert_eq!(BlockStateContainer::read(&mut reader).err(), Some(CodecError::UnexpectedEof));
    assert_eq!(reader.remaining(), 1);
    // Words run out: the whole words before the missing one stay read.
    let mut bytes = vec![4u8];
    write_var_i32(1, &mut bytes);
    write_var_i32(0, &mut bytes);
    write_var_i32(256, &mut bytes);
    bytes.extend_from_slice(&[0; 20]);
    let mut reader = PacketReader::new(&bytes);
    assert_eq!(BlockStateContainer::read(&mut reader).err(), Some(CodecError::UnexpectedEof));
    assert_eq!(reader.remaining(), 4);
}

#[test]
fn words_that_do_not_fit_the_width_are_invalid_data() {
    let bytes = section_bytes(4, &[0], Some(3));
    let mut reader = PacketReader::new(&bytes);
    assert_eq!(
        BlockStateContainer::read(&mut reader).err(),
        Some(CodecError::InvalidData("BitArray backing length does not match its size".to_string()))
    );
    assert_eq!(reader.remaining(), 0);
    // A registry width past 32 bits.
    let mut bytes = vec![40u8];
    write_var_i32(0, &mut bytes);
    let mut reader = PacketReader::new(&bytes);
    assert_eq!(
        BlockStateContainer::read(&mut reader).err(),
        Some(CodecError::InvalidData("BitArray width must be between 1 and 32".to_string()))
    );
}
