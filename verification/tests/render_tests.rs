use ash::vk;
use mc_client::arena::{align_up, ChunkIndirectCommand, ElementArenaAllocator};
use mc_client::frame::{
    depth_aspect, depth_format_candidates, findMemoryType, find_depth_format, physicalDeviceRank, scale_nearest,
    selectPhysicalDevice, sky_color, CpuFrame,
};
use mc_client::panorama::{parseColor4, parseInt, CustomPanoramaProperties};

#[test]
fn fragmented_spans_coalesce_without_reordering_live_meshes() {
    let mut allocator = ElementArenaAllocator::new(128);
    let small = allocator.claim(16).expect("small span");
    let middle = allocator.claim(48).expect("middle span");
    let tail = allocator.claim(64).expect("tail span");
    assert_eq!((small, middle, tail), (0, 16, 64));
    assert!(allocator.claim(1).is_none());

    allocator.recycle(middle, 48);
    assert_eq!(allocator.claim(32), Some(16));
    // give back the run that `claim(32)` handed out: [48, 64) is still free
    allocator.recycle(16, 32);
    allocator.recycle(small, 16);
    allocator.recycle(tail, 64);
    assert_eq!(allocator.free_count(), 128);
    assert_eq!(allocator.claim(128), Some(0));
}

#[test]
fn indirect_command_matches_vulkan_layout() {
    assert_eq!(std::mem::size_of::<ChunkIndirectCommand>(), 20);
}

#[test]
fn best_fit_prefers_the_tightest_first_span() {
    let mut allocator = ElementArenaAllocator::new(100);
    let a = allocator.claim(10).unwrap();
    let b = allocator.claim(20).unwrap();
    let c = allocator.claim(10).unwrap();
    let d = allocator.claim(20).unwrap();
    assert_eq!((a, b, c, d), (0, 10, 30, 40));
    allocator.recycle(b, 20);
    allocator.recycle(a, 10);
    assert_eq!(allocator.free_count(), 70);
    assert_eq!(allocator.claim(0), Some(0));
    assert_eq!(allocator.claim(25), Some(0));
    assert_eq!(allocator.claim(5), Some(25));
    assert_eq!(allocator.free_count(), 40);
}

#[test]
fn align_up_rounds_to_the_next_multiple() {
    assert_eq!(align_up(0, 4), 0);
    assert_eq!(align_up(1, 4), 4);
    assert_eq!(align_up(8, 4), 8);
    assert_eq!(align_up(13, 16), 16);
}

#[test]
fn properties_defaults_match_optifine_c6() {
    let properties = CustomPanoramaProperties::new("textures/gui/title/background", &Vec::new());
    assert_eq!(properties.getWeight(), 1);
    assert_eq!(properties.getBlur1(), 64);
    assert_eq!(properties.getBlur2(), 3);
    assert_eq!(properties.getBlur3(), 3);
    assert_eq!(properties.getOverlay1Top(), -2_130_706_433);
    assert_eq!(properties.getOverlay1Bottom(), 16_777_215);
    assert_eq!(properties.getOverlay2Bottom(), i32::MIN);
}

#[test]
fn argb_hex_uses_java_narrowing() {
    let values = vec![("overlay1.top".to_owned(), "80FFFFFF".to_owned())];
    let properties = CustomPanoramaProperties::new("test", &values);
    assert_eq!(properties.getOverlay1Top(), 0x80FF_FFFF_u32 as i32);
}

#[test]
fn to_string_matches_optifine_field_order() {
    let properties = CustomPanoramaProperties::new("textures/gui/title/background", &Vec::new());
    assert_eq!(
        properties.to_string(),
        "textures/gui/title/background, weight: 1, blur: 64 3 3, overlay: -2130706433 16777215 0 -2147483648"
    );
}

#[test]
fn property_values_are_trimmed_and_checked() {
    let weight = " 12\t".to_string();
    assert_eq!(parseInt(Some(&weight), 1), 12);
    assert_eq!(parseInt(Some(&"-2147483648".to_string()), 1), i32::MIN);
    assert_eq!(parseInt(Some(&"2147483648".to_string()), 1), 1);
    assert_eq!(parseInt(Some(&"+7".to_string()), 1), 7);
    assert_eq!(parseInt(Some(&"-".to_string()), 1), 1);
    assert_eq!(parseInt(Some(&"1x".to_string()), 9), 9);
    assert_eq!(parseInt(None, 5), 5);
    assert_eq!(parseColor4(Some(&" ff ".to_string()), 0), 255);
    assert_eq!(parseColor4(Some(&"FFFFFFFF".to_string()), 0), -1);
    assert_eq!(parseColor4(Some(&"100000000".to_string()), 3), 3);
    assert_eq!(parseColor4(Some(&"-1".to_string()), 3), 3);
    assert_eq!(parseColor4(Some(&"".to_string()), 3), 3);
}

#[test]
fn panorama_images_and_overrides() {
    let values = vec![
        ("weight".to_owned(), "4".to_owned()),
        ("blur2".to_owned(), "x".to_owned()),
        ("overlay2.top".to_owned(), "0000ff".to_owned()),
    ];
    let properties = CustomPanoramaProperties::new("minecraft:Pan", &values);
    assert_eq!(properties.getWeight(), 4);
    assert_eq!(properties.getBlur2(), 3);
    assert_eq!(properties.getOverlay2Top(), 255);
    assert_eq!(properties.getOverlay1Top(), -2_130_706_433);
    let images = properties.getPanoramaLocations();
    assert_eq!(images[0].getNamespace(), "minecraft");
    assert_eq!(images[0].getPath(), "pan/panorama_0.png");
    assert_eq!(images[5].getPath(), "pan/panorama_5.png");
}

#[test]
fn nearest_scale_preserves_corners() {
    let mut source = CpuFrame::new(2, 2);
    source.set_pixel(0, 0, [1, 2, 3, 4]);
    source.set_pixel(1, 1, [5, 6, 7, 8]);
    let out = scale_nearest(&source, 4, 4);
    assert_eq!(out.pixel(0, 0), [1, 2, 3, 4]);
    assert_eq!(out.pixel(3, 3), [5, 6, 7, 8]);
}

#[test]
fn frames_clear_and_ignore_outside_writes() {
    let mut frame = CpuFrame::new(3, 2);
    frame.clear([9, 9, 9, 255]);
    frame.set_pixel(5, 5, [1, 1, 1, 1]);
    assert_eq!(frame.pixel(2, 1), [9, 9, 9, 255]);
    assert_eq!(frame.pixel(3, 0), [0, 0, 0, 0]);
    let small = scale_nearest(&frame, 1, 1);
    assert_eq!(small.pixel(0, 0), [9, 9, 9, 255]);
    assert_eq!((small.width(), small.height()), (1, 1));
}

#[test]
fn sky_colours_by_dimension() {
    assert_eq!(sky_color(-1), [48, 8, 8]);
    assert_eq!(sky_color(1), [8, 8, 16]);
    assert_eq!(sky_color(0), [126, 178, 255]);
}

#[test]
fn memory_type_filter_requires_all_requested_flags() {
    let flags = [
        vk::MemoryPropertyFlags::HOST_VISIBLE.as_raw(),
        (vk::MemoryPropertyFlags::HOST_VISIBLE | vk::MemoryPropertyFlags::HOST_COHERENT).as_raw(),
    ];
    assert_eq!(
        findMemoryType(
            &flags,
            0b11,
            (vk::MemoryPropertyFlags::HOST_VISIBLE | vk::MemoryPropertyFlags::HOST_COHERENT).as_raw(),
        ),
        Some(1),
    );
    assert_eq!(findMemoryType(&flags, 0b01, vk::MemoryPropertyFlags::HOST_COHERENT.as_raw()), None);
}

#[test]
fn discrete_devices_are_preferred() {
    let ranks = [physicalDeviceRank(1), physicalDeviceRank(2), physicalDeviceRank(2), physicalDeviceRank(7)];
    assert_eq!(ranks, [1, 0, 0, 4]);
    assert_eq!(selectPhysicalDevice(&ranks), Some(1));
    assert_eq!(selectPhysicalDevice(&[]), None);
}

#[test]
fn depth_formats_are_tried_best_first() {
    assert_eq!(
        depth_format_candidates(),
        [vk::Format::D32_SFLOAT.as_raw(), vk::Format::D24_UNORM_S8_UINT.as_raw(), vk::Format::D16_UNORM.as_raw()]
    );
    let attachment = vk::FormatFeatureFlags::DEPTH_STENCIL_ATTACHMENT.as_raw();
    let sampled = vk::FormatFeatureFlags::SAMPLED_IMAGE.as_raw();
    assert_eq!(find_depth_format(&[attachment | sampled, attachment, attachment]), Some(vk::Format::D32_SFLOAT.as_raw()));
    assert_eq!(find_depth_format(&[sampled, 0, attachment]), Some(vk::Format::D16_UNORM.as_raw()));
    assert_eq!(find_depth_format(&[sampled, sampled, 0]), None);
}

#[test]
fn stencil_formats_add_the_stencil_aspect() {
    let depth = vk::ImageAspectFlags::DEPTH.as_raw();
    let both = (vk::ImageAspectFlags::DEPTH | vk::ImageAspectFlags::STENCIL).as_raw();
    assert_eq!(depth_aspect(vk::Format::D24_UNORM_S8_UINT.as_raw()), both);
    assert_eq!(depth_aspect(vk::Format::D32_SFLOAT_S8_UINT.as_raw()), both);
    assert_eq!(depth_aspect(vk::Format::D32_SFLOAT.as_raw()), depth);
    assert_eq!(depth_aspect(vk::Format::D16_UNORM.as_raw()), depth);
}
