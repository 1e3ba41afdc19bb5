use vstd::prelude::*;
use crate::util::{ascii_lower, to_ascii_lowercase};

verus! {

/// Files, under an asset root, without which the client cannot draw its
/// title screen.
pub fn required_visual_assets() -> (r: [&'static str; 4])
    ensures
        r@.map_values(|s: &str| s@) == seq![
            "minecraft/lang/en_us.lang"@,
            "minecraft/textures/gui/title/minecraft.png"@,
            "minecraft/textures/gui/widgets.png"@,
            "minecraft/textures/font/ascii.png"@,
        ],
{
    let r = [
        "minecraft/lang/en_us.lang",
        "minecraft/textures/gui/title/minecraft.png",
        "minecraft/textures/gui/widgets.png",
        "minecraft/textures/font/ascii.png",
    ];
    proof {
        assert(r@.map_values(|s: &str| s@) =~= seq![
            "minecraft/lang/en_us.lang"@,
            "minecraft/textures/gui/title/minecraft.png"@,
            "minecraft/textures/gui/widgets.png"@,
            "minecraft/textures/font/ascii.png"@,
        ]);
    }
    r
}

/// The message for a command line without an asset root.
pub open spec fn usage_text() -> Seq<char> {
    "usage: mc112-asset-validator --path <asset-root>"@
}

/// The asset root named by the arguments from `i` on, `path` being the one
/// named before: `--path` takes the argument after it (none when it is the
/// last), and a later `--path` wins; any other argument is refused.
pub open spec fn parse_path_from(args: Seq<Seq<char>>, i: int, path: Option<Seq<char>>) -> Result<
    Seq<char>,
    Seq<char>,
>
    decreases args.len() + 1 - i,
{
    if i >= args.len() {
        match path {
            Some(p) => Ok(p),
            None => Err(usage_text()),
        }
    } else if args[i] == "--path"@ {
        parse_path_from(args, i + 2, if i + 1 < args.len() { Some(args[i + 1]) } else { None })
    } else {
        Err("unknown argument: "@ + args[i])
    }
}

/// The asset root named by the command-line arguments (without the
/// program's name); see [`parse_path_from`].
pub fn parse_path(args: &Vec<String>) -> (r: Result<String, String>)
    ensures
        match parse_path_from(args@.map_values(|a: String| a@), 0, None) {
            Ok(p) => r matches Ok(s) && s@ == p,
            Err(m) => r matches Err(s) && s@ == m,
        },
{
    let ghost views = args@.map_values(|a: String| a@);
    let flag = String::from_str("--path");
    let mut path: Option<String> = None;
    let mut i: usize = 0;
    while i < args.len()
        invariant
            views == args@.map_values(|a: String| a@),
            flag@ == "--path"@,
            i <= args@.len(),
            parse_path_from(views, 0, None) == parse_path_from(
                views,
                i as int,
                match path {
                    Some(p) => Some(p@),
                    None => None,
                },
            ),
        decreases args@.len() - i,
    {
        let ghost before = parse_path_from(
            views,
            i as int,
            match path {
                Some(p) => Some(p@),
                None => None,
            },
        );
        proof {
            assert(views[i as int] == args@[i as int]@);
        }
        if args[i] == flag {
            if i + 1 < args.len() {
                let next = args[i + 1].clone();
                proof {
                    assert(views[i + 1] == args@[i + 1]@);
                    assert(before == parse_path_from(views, i + 2, Some(next@)));
                }
                path = Some(next);
                i = i + 2;
            } else {
                proof {
                    assert(before == parse_path_from(views, i + 2, None));
                    assert(parse_path_from(views, i + 2, None) == Err::<Seq<char>, Seq<char>>(usage_text()));
                }
                path = None;
                i = args.len();
            }
        } else {
            let message = String::from_str("unknown argument: ").concat(args[i].as_str());
            return Err(message);
        }
    }
    match path {
        Some(p) => Ok(p),
        None => Err(String::from_str("usage: mc112-asset-validator --path <asset-root>")),
    }
}

/// Whether a file extension names an Ogg file, in any letter case.
pub fn is_ogg_extension(extension: &str) -> (r: bool)
    ensures
        r == (extension@.map_values(|c: char| ascii_lower(c)) == "ogg"@),
{
    let lower = to_ascii_lowercase(extension);
    let ogg = String::from_str("ogg");
    lower == ogg
}

/// `true` or `false`.
pub open spec fn bool_text(b: bool) -> Seq<char> {
    if b { "true"@ } else { "false"@ }
}

fn bool_string(b: bool) -> (s: &'static str)
    ensures
        s@ == bool_text(b),
{
    if b {
        "true"
    } else {
        "false"
    }
}

/// What is refused of an asset tree whose title-screen files are all there
/// but that lacks the sound registry, sound files or OptiFine assets.
pub open spec fn coverage_message(soundRegistry: bool, soundObjects: bool, optifineAssets: bool) -> Seq<char> {
    "asset coverage incomplete: visual_assets=true, sound_registry="@ + bool_text(soundRegistry)
        + ", sound_objects="@ + bool_text(soundObjects) + ", optifine_assets="@ + bool_text(optifineAssets)
}

/// Accepts an asset tree that has its sound registry, sound files and
/// OptiFine assets; else says which of them it has; see
/// [`coverage_message`].
pub fn asset_coverage(soundRegistry: bool, soundObjects: bool, optifineAssets: bool) -> (r: Result<(), String>)
    ensures
        soundRegistry && soundObjects && optifineAssets ==> r is Ok,
        !(soundRegistry && soundObjects && optifineAssets) ==> (r matches Err(m) && m@ == coverage_message(
            soundRegistry,
            soundObjects,
            optifineAssets,
        )),
{
    if soundRegistry && soundObjects && optifineAssets {
        return Ok(());
    }
    let m = String::from_str("asset coverage incomplete: visual_assets=true, sound_registry=");
    let m = m.concat(bool_string(soundRegistry));
    let m = m.concat(", sound_objects=");
    let m = m.concat(bool_string(soundObjects));
    let m = m.concat(", optifine_assets=");
    let m = m.concat(bool_string(optifineAssets));
    Err(m)
}

} // verus!
