//! Names of assets: their paths relative to the project root, with `/` as
//! the separator.

use vstd::prelude::*;

verus! {

/// What is left of `asset` once the directory `root` is taken off its front,
/// or `None` when `root` is not a leading directory of `asset`.
pub open spec fn path_remainder(root: Seq<char>, asset: Seq<char>) -> Option<Seq<char>> {
    let n = root.len() as int;
    if n == 0 {
        Some(asset)
    } else if asset.len() < n || asset.subrange(0, n) != root {
        None
    } else if asset.len() == n {
        Some(Seq::empty())
    } else if asset[n] == '/' {
        Some(asset.subrange(n + 1, asset.len() as int))
    } else if root[n - 1] == '/' {
        Some(asset.subrange(n, asset.len() as int))
    } else {
        None
    }
}

/// The path of an asset relative to the project root.
#[derive(Debug)]
pub struct AssetName(String);

impl View for AssetName {
    type V = Seq<char>;

    closed spec fn view(&self) -> Seq<char> {
        self.0@
    }
}

impl AssetName {
    /// The name of the asset at `asset_path`, which must lie under
    /// `root_path`.
    pub fn from_paths(root_path: &str, asset_path: &str) -> (r: AssetName)
        requires
            path_remainder(root_path@, asset_path@).is_some(),
        ensures
            r@ == path_remainder(root_path@, asset_path@).unwrap(),
    {
        let n = root_path.unicode_len();
        let m = asset_path.unicode_len();
        if n == 0 {
            return AssetName(String::from_str(asset_path));
        }
        proof {
            assert(asset_path@.subrange(0, n as int)[n - 1] == root_path@[n - 1]);
        }
        let start: usize = if n == m {
            m
        } else if asset_path.get_char(n) == '/' {
            n + 1
        } else {
            n
        };
        AssetName(String::from_str(asset_path.substring_char(start, m)))
    }

    /// A name given directly, already relative and using `/`.
    pub fn new(inner: &str) -> (r: AssetName)
        ensures
            r@ == inner@,
    {
        AssetName(String::from_str(inner))
    }

    pub fn as_str(&self) -> (r: &str)
        ensures
            r@ == self@,
    {
        self.0.as_str()
    }
}

} // verus!
