use dod_tools::cli::{human, parse_opts, parse_pack_opts};
use dod_tools::pack::{
    bsp_rel_path, differs_from_declared, pack_map_name, path_components, plan_pack, same_name_ci, PackError, PackOptions,
};
use dod_tools::resources::{BspInfo, DemoResource, ResourceKind};

fn args(a: &[&str]) -> Vec<String> {
    a.iter().map(|s| s.to_string()).collect()
}

#[test]
fn counts_are_grouped_by_thousands() {
    assert_eq!(human(0), "0");
    assert_eq!(human(999), "999");
    assert_eq!(human(1000), "1,000");
    assert_eq!(human(1234567), "1,234,567");
    assert_eq!(human(100000), "100,000");
}

#[test]
fn transcode_options_come_from_the_arguments() {
    let t = parse_opts(&args(&["--userdata", "--gamedir", "valve", "--preroll", "5", "--fps", "60", "--no-rebase", "x"]));
    assert!(t.keep_userdata);
    assert!(!t.rebase_time);
    assert_eq!(t.gamedir.as_deref(), Some("valve"));
    assert_eq!(t.preroll.as_deref(), Some("5"));
    assert_eq!(t.fps.as_deref(), Some("60"));
    let d = parse_opts(&args(&[]));
    assert!(!d.keep_userdata && d.rebase_time && d.gamedir.is_none() && d.preroll.is_none() && d.fps.is_none());
    // A flag at the end has no value.
    let e = parse_opts(&args(&["--gamedir", "dod", "--gamedir"]));
    assert_eq!(e.gamedir, None);
}

#[test]
fn pack_options_come_from_the_arguments() {
    let o = parse_pack_opts(&args(&["--game-root", "/hl", "--sound", "-v", "--fallback", "cstrike"]));
    assert_eq!(o.game_root, "/hl");
    assert_eq!(o.gamedir, "dod");
    assert_eq!(o.fallback, "cstrike");
    assert!(o.include_sound);
    assert!(o.verbose);
    let d = PackOptions::default();
    assert_eq!(d.game_root, "");
    assert_eq!(d.gamedir, "dod");
    assert_eq!(d.fallback, "valve");
    assert!(!d.include_sound && !d.verbose);
    // A flag at the end with no value leaves the setting alone.
    let e = parse_pack_opts(&args(&["--gamedir"]));
    assert_eq!(e.gamedir, "dod");
}

#[test]
fn map_names_lose_their_bsp_suffix() {
    assert_eq!(pack_map_name("dod_flash.bsp").unwrap(), "dod_flash");
    assert_eq!(pack_map_name("dod_flash").unwrap(), "dod_flash");
    assert_eq!(pack_map_name("a.bsp.bsp").unwrap(), "a");
    assert_eq!(pack_map_name(".bsp").err(), Some(PackError::NoMapName));
    assert_eq!(pack_map_name("").err(), Some(PackError::NoMapName));
    assert_eq!(PackError::NoMapName.message(), "demo header has no map name");
    assert_eq!(bsp_rel_path("dod_flash"), "maps/dod_flash.bsp");
}

fn res(kind: ResourceKind, path: &str, size: u32) -> DemoResource {
    DemoResource { kind, name: path.to_string(), path: path.to_string(), size }
}

#[test]
fn the_pack_plan_lists_each_path_once() {
    let info = BspInfo {
        version: 30,
        wads: vec!["halflife.wad".to_string(), "dod.wad".to_string()],
        skyname: Some("dusk".to_string()),
    };
    let resources = vec![
        res(ResourceKind::Sound, "sound/a.wav", 5),
        res(ResourceKind::Model, "models/a.mdl", 10),
        res(ResourceKind::Model, "MAPS/DOD_FLASH.BSP", 11),
        res(ResourceKind::Decal, "{shot", 0),
        res(ResourceKind::EventScript, "events/x.sc", 3),
        res(ResourceKind::World, "maps/dod_flash.bsp", 12),
    ];
    let (wanted, skipped) = plan_pack("dod_flash", Some(&info), &resources, false);
    assert_eq!(skipped, 1);
    let got: Vec<(String, String, u32, bool)> =
        wanted.iter().map(|w| (w.kind.clone(), w.path.clone(), w.declared, w.optional)).collect();
    assert_eq!(got.len(), 1 + 2 + 12 + 2 + 1);
    assert_eq!(got[0], ("map".to_string(), "maps/dod_flash.bsp".to_string(), 0, false));
    assert_eq!(got[1], ("wad".to_string(), "halflife.wad".to_string(), 0, false));
    assert_eq!(got[3], ("sky".to_string(), "gfx/env/duskbk.tga".to_string(), 0, true));
    assert_eq!(got[15], ("model".to_string(), "models/a.mdl".to_string(), 10, false));
    assert_eq!(got[16], ("event".to_string(), "events/x.sc".to_string(), 3, true));
    assert_eq!(got[17], ("meta".to_string(), "liblist.gam".to_string(), 0, true));

    let (wanted, skipped) = plan_pack("dod_flash", None, &resources, true);
    assert_eq!(skipped, 0);
    let paths: Vec<String> = wanted.iter().map(|w| w.path.clone()).collect();
    assert_eq!(
        paths,
        vec!["maps/dod_flash.bsp", "sound/a.wav", "models/a.mdl", "events/x.sc", "liblist.gam"]
    );
}

#[test]
fn path_components_skip_empty_parts() {
    assert_eq!(path_components("/a//b/c.txt/"), vec!["a", "b", "c.txt"]);
    assert!(path_components("").is_empty());
    assert!(same_name_ci("Models", "mODELS"));
    assert!(!same_name_ci("model", "models"));
}

#[test]
fn size_mismatches_are_detected() {
    assert!(!differs_from_declared(0, 123));
    assert!(!differs_from_declared(10, 10));
    assert!(differs_from_declared(10, 11));
}
