use tarmac::asset_name::AssetName;
use tarmac::config::{CodegenKind, ConfigEntry, GroupSpritesheetConfig};

#[test]
fn asset_name_is_relative_to_the_root() {
    assert_eq!(AssetName::from_paths("project", "project/assets/a.png").as_str(), "assets/a.png");
    assert_eq!(AssetName::from_paths("project/", "project/a.png").as_str(), "a.png");
    assert_eq!(AssetName::from_paths("", "a/b.png").as_str(), "a/b.png");
    assert_eq!(AssetName::from_paths("a/b.png", "a/b.png").as_str(), "");
}

#[test]
fn config_defaults() {
    let entry = ConfigEntry::default();
    assert_eq!(entry.codegen, CodegenKind::NoCodegen);
    assert!(!entry.can_spritesheet);
    let sheet = GroupSpritesheetConfig::default();
    assert!(!sheet.enabled);
    assert_eq!(sheet.max_size, (1024, 1024));
}

#[test]
fn asset_name_from_a_plain_string() {
    assert_eq!(AssetName::new("ui/button.png").as_str(), "ui/button.png");
}
