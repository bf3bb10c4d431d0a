use dod_tools::bitvec_model::BitVec;
use dod_tools::resources::{
    clean_resource_name, entity_value, first_entity, is_inline_bsp_model, parse_bsp, resolve_path,
    resources, sky_paths, BspError, ResourceEntry, ResourceKind,
};

#[test]
fn extracts_wads_and_sky() {
    let ents = r#"
{
"wad" "\sierra\half-life\valve\halflife.wad;\sierra\half-life\dod\dod.wad;\dod\custom.wad;"
"skyname" "dusk"
"classname" "worldspawn"
}
{
"classname" "info_player_allies"
}
"#;
    let ws = first_entity(ents).unwrap();
    assert_eq!(entity_value(&ws, "skyname").as_deref(), Some("dusk"));

    let raw = entity_value(&ws, "wad").unwrap();
    let wads: Vec<_> = raw
        .split(';')
        .filter_map(|p| p.rsplit(['/', '\\']).next())
        .map(|s| s.trim())
        .filter(|s| s.to_ascii_lowercase().ends_with(".wad"))
        .collect();
    assert_eq!(wads, vec!["halflife.wad", "dod.wad", "custom.wad"]);
}

#[test]
fn sound_paths_get_prefixed_once() {
    assert_eq!(
        resolve_path(ResourceKind::Sound, "weapons/garand_fire.wav"),
        "sound/weapons/garand_fire.wav"
    );
    assert_eq!(
        resolve_path(ResourceKind::Sound, "sound/ambience/wind.wav"),
        "sound/ambience/wind.wav"
    );
    assert_eq!(
        resolve_path(ResourceKind::Model, "models/player/us_garand/us_garand.mdl"),
        "models/player/us_garand/us_garand.mdl"
    );
    assert_eq!(
        resolve_path(ResourceKind::Model, "models\\v_garand.mdl"),
        "models/v_garand.mdl"
    );
}

#[test]
fn decals_are_not_files() {
    assert!(!ResourceKind::Decal.is_file());
    assert!(ResourceKind::Model.is_file());
}

#[test]
fn resource_names_are_truncated_at_the_first_nul() {
    assert_eq!(
        clean_resource_name("maps/dod_Emmanuel.bsp\0".to_string()),
        "maps/dod_Emmanuel.bsp"
    );
    assert_eq!(
        clean_resource_name("models/null.mdl\0\0\0\0\0\0".to_string()),
        "models/null.mdl"
    );
    assert_eq!(clean_resource_name("clean/name.mdl".to_string()), "clean/name.mdl");
    assert_eq!(clean_resource_name("\0".to_string()), "");
}

#[test]
fn inline_bsp_models_are_excluded() {
    assert!(is_inline_bsp_model(ResourceKind::Model, "*1"));
    assert!(is_inline_bsp_model(ResourceKind::Model, "*120"));
    assert!(!is_inline_bsp_model(
        ResourceKind::Model,
        "models/player/us_garand/us_garand.mdl"
    ));
    assert!(!is_inline_bsp_model(ResourceKind::Sound, "*1"));
}

#[test]
fn kinds_come_from_their_byte_and_have_labels() {
    assert_eq!(ResourceKind::from_u8(0), ResourceKind::Sound);
    assert_eq!(ResourceKind::from_u8(5), ResourceKind::EventScript);
    assert_eq!(ResourceKind::from_u8(6), ResourceKind::World);
    assert_eq!(ResourceKind::from_u8(9), ResourceKind::Unknown(9));
    assert_eq!(ResourceKind::EventScript.label(), "event");
    assert_eq!(ResourceKind::Unknown(9).label(), "unknown(9)");
    assert!(!ResourceKind::Unknown(9).is_file());
    assert!(ResourceKind::Sound.is_file());
}

#[test]
fn leading_slashes_go_and_backslashes_turn() {
    assert_eq!(resolve_path(ResourceKind::Generic, "//gfx\\a.tga"), "gfx/a.tga");
    assert_eq!(resolve_path(ResourceKind::Sound, "/x.wav"), "sound/x.wav");
}

fn resource_entry(kind: u8, name: &str, size: u32) -> ResourceEntry {
    let mut name_bytes = name.as_bytes().to_vec();
    name_bytes.push(0);
    ResourceEntry {
        type_: BitVec::from_slice(&[kind]),
        name: BitVec::from_slice(&name_bytes),
        size: BitVec::from_slice(&size.to_le_bytes()),
    }
}

#[test]
fn resources_are_deduplicated_filtered_and_sorted() {
    let entries = vec![
        resource_entry(2, "models/b.mdl", 10),
        resource_entry(0, "weapons/shot.wav", 20),
        resource_entry(2, "*3", 0),
        resource_entry(2, "models/a.mdl", 30),
        resource_entry(2, "models/b.mdl", 99),
        resource_entry(1, "", 5),
        resource_entry(0, "sound/weapons/shot.wav", 40),
        resource_entry(3, "{shot1", 0),
    ];
    let r = resources(&entries);
    let got: Vec<(ResourceKind, String, String, u32)> = r
        .iter()
        .map(|d| (d.kind, d.name.clone(), d.path.clone(), d.size))
        .collect();
    assert_eq!(
        got,
        vec![
            (
                ResourceKind::Sound,
                "weapons/shot.wav".to_string(),
                "sound/weapons/shot.wav".to_string(),
                20
            ),
            (
                ResourceKind::Sound,
                "sound/weapons/shot.wav".to_string(),
                "sound/weapons/shot.wav".to_string(),
                40
            ),
            (ResourceKind::Model, "models/a.mdl".to_string(), "models/a.mdl".to_string(), 30),
            (ResourceKind::Model, "models/b.mdl".to_string(), "models/b.mdl".to_string(), 10),
            (ResourceKind::Decal, "{shot1".to_string(), "{shot1".to_string(), 0),
        ]
    );
}

#[test]
fn no_resources_from_no_entries() {
    assert!(resources(&Vec::new()).is_empty());
}

#[test]
fn sky_paths_cover_six_faces_and_two_extensions() {
    let p = sky_paths("dusk");
    assert_eq!(p.len(), 12);
    assert_eq!(p[0], "gfx/env/duskbk.tga");
    assert_eq!(p[1], "gfx/env/duskbk.bmp");
    assert_eq!(p[2], "gfx/env/duskdn.tga");
    assert_eq!(p[11], "gfx/env/duskup.bmp");
}

fn bsp_with_entities(version: i32, ents: &str) -> Vec<u8> {
    let mut b = Vec::new();
    b.extend_from_slice(&version.to_le_bytes());
    let off: i32 = 12 + 14 * 8;
    b.extend_from_slice(&off.to_le_bytes());
    b.extend_from_slice(&(ents.len() as i32).to_le_bytes());
    b.resize(off as usize, 0);
    b.extend_from_slice(ents.as_bytes());
    b
}

#[test]
fn parse_bsp_reads_wads_and_sky() {
    let ents = "{\n\"wad\" \"\\valve\\halflife.wad;\\dod\\DOD.WAD; \\dod\\custom.wad ;x.txt;\\other\\halflife.WAD;\"\n\"skyname\" \"  dusk \"\n}\n{\n\"skyname\" \"night\"\n}";
    let info = parse_bsp(&bsp_with_entities(30, ents)).unwrap();
    assert_eq!(info.version, 30);
    assert_eq!(info.wads, vec!["halflife.wad", "DOD.WAD", "custom.wad"]);
    assert_eq!(info.skyname.as_deref(), Some("dusk"));
}

#[test]
fn parse_bsp_without_sky_or_block() {
    let info = parse_bsp(&bsp_with_entities(29, "\"skyname\" \"   \"")).unwrap();
    assert_eq!(info.version, 29);
    assert!(info.wads.is_empty());
    assert_eq!(info.skyname, None);
}

#[test]
fn parse_bsp_refuses_short_and_out_of_range_lumps() {
    assert_eq!(parse_bsp(&[0u8; 11]).err(), Some(BspError::TooShort));
    assert_eq!(BspError::TooShort.message(), "BSP too short");
    let mut b = bsp_with_entities(30, "{}");
    b[4..8].copy_from_slice(&0i32.to_le_bytes());
    assert_eq!(parse_bsp(&b).err(), Some(BspError::EntityLumpOutOfRange(0, 2)));
    let mut c = bsp_with_entities(30, "{}");
    c[8..12].copy_from_slice(&1000i32.to_le_bytes());
    let e = parse_bsp(&c).err().unwrap();
    assert_eq!(e, BspError::EntityLumpOutOfRange(124, 1000));
    assert_eq!(e.message(), "BSP entity lump out of range (offset 124, len 1000)");
}

#[test]
fn entity_value_skips_a_key_without_a_value() {
    assert_eq!(entity_value("\"a\" \"1\" \"b\" \"2\"", "b").as_deref(), Some("2"));
    assert_eq!(entity_value("\"a\" \"1\"", "c"), None);
    assert_eq!(first_entity("no block here"), None);
    assert_eq!(first_entity("x{ab}{c}").as_deref(), Some("{ab"));
}

#[test]
fn lump_offsets_that_wrap_are_flagged() {
    assert!(dod_tools::resources::bsp_lump_fits(&[0u8; 4]));
    assert!(dod_tools::resources::bsp_lump_fits(&bsp_with_entities(30, "{}")));
    let mut b = bsp_with_entities(30, "{}");
    b[4..8].copy_from_slice(&(-1i32).to_le_bytes());
    b[8..12].copy_from_slice(&(16i32).to_le_bytes());
    assert!(!dod_tools::resources::bsp_lump_fits(&b));
}
