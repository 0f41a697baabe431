//! Settings that decide whether and how images are packed into spritesheets.

use vstd::prelude::*;

verus! {

/// What kind of code to generate for an asset.
#[derive(Clone, Copy, Debug, PartialEq, Eq, Structural)]
pub enum CodegenKind {
    NoCodegen,
    AssetUrl,
    Slice,
}

/// Per-folder settings for the assets in it.
#[derive(Clone, Copy, Debug, PartialEq, Eq, Structural)]
pub struct ConfigEntry {
    pub codegen: CodegenKind,
    /// Whether these assets may be packed into spritesheets.
    pub can_spritesheet: bool,
}

impl Default for ConfigEntry {
    fn default() -> (r: ConfigEntry)
        ensures
            r == (ConfigEntry { codegen: CodegenKind::NoCodegen, can_spritesheet: false }),
    {
        ConfigEntry { codegen: CodegenKind::NoCodegen, can_spritesheet: false }
    }
}

/// Spritesheet settings of a group of inputs.
#[derive(Clone, Copy, Debug)]
pub struct GroupSpritesheetConfig {
    /// Whether to collect the group's images into spritesheets.
    pub enabled: bool,
    /// The largest spritesheet to make; images that do not fit in one go on
    /// to further spritesheets.
    pub max_size: (u32, u32),
}

impl Default for GroupSpritesheetConfig {
    fn default() -> (r: GroupSpritesheetConfig)
        ensures
            r.enabled == false,
            r.max_size == (1024u32, 1024u32),
    {
        GroupSpritesheetConfig { enabled: false, max_size: (1024, 1024) }
    }
}

} // verus!
