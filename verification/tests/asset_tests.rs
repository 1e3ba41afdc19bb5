use mc_client::assets::{asset_coverage, is_ogg_extension, parse_path, required_visual_assets};

fn args(list: &[&str]) -> Vec<String> {
    list.iter().map(|a| a.to_string()).collect()
}

#[test]
fn path_flag_names_the_asset_root() {
    assert_eq!(parse_path(&args(&["--path", "/assets"])), Ok("/assets".to_string()));
    assert_eq!(parse_path(&args(&["--path", "/a", "--path", "/b"])), Ok("/b".to_string()));
    assert_eq!(parse_path(&args(&["--path", "--path"])), Ok("--path".to_string()));
}

#[test]
fn missing_or_unknown_arguments_are_refused() {
    let usage = "usage: mc112-asset-validator --path <asset-root>".to_string();
    assert_eq!(parse_path(&args(&[])), Err(usage.clone()));
    assert_eq!(parse_path(&args(&["--path"])), Err(usage.clone()));
    assert_eq!(parse_path(&args(&["--path", "/a", "--path"])), Err(usage));
    assert_eq!(parse_path(&args(&["--verbose"])), Err("unknown argument: --verbose".to_string()));
    assert_eq!(parse_path(&args(&["--path", "/a", "x"])), Err("unknown argument: x".to_string()));
}

#[test]
fn ogg_extension_ignores_ascii_case() {
    assert!(is_ogg_extension("ogg"));
    assert!(is_ogg_extension("OGG"));
    assert!(is_ogg_extension("oGg"));
    assert!(!is_ogg_extension("oga"));
    assert!(!is_ogg_extension("ogg2"));
    assert!(!is_ogg_extension(""));
}

#[test]
fn coverage_names_what_is_missing() {
    assert_eq!(asset_coverage(true, true, true), Ok(()));
    assert_eq!(
        asset_coverage(true, false, true),
        Err("asset coverage incomplete: visual_assets=true, sound_registry=true, sound_objects=false, optifine_assets=true"
            .to_string())
    );
    assert_eq!(
        asset_coverage(false, false, false),
        Err("asset coverage incomplete: visual_assets=true, sound_registry=false, sound_objects=false, optifine_assets=false"
            .to_string())
    );
}

#[test]
fn title_screen_assets_are_required() {
    assert_eq!(
        required_visual_assets(),
        [
            "minecraft/lang/en_us.lang",
            "minecraft/textures/gui/title/minecraft.png",
            "minecraft/textures/gui/widgets.png",
            "minecraft/textures/font/ascii.png",
        ]
    );
}
