use vstd::prelude::*;

use std::path::PathBuf;

verus! {

#[verifier::external_type_specification]
#[verifier::external_body]
pub struct ExPathBuf(PathBuf);

/// The path that `Path::join` makes of a base path and a relative part.
pub uninterp spec fn joined_path(base: PathBuf, part: Seq<char>) -> PathBuf;

/// `std::path::Path::join`: the result depends on the base path and the part
/// alone (the part replaces the base when it is absolute, and is appended after
/// a separator otherwise); only that dependence is stated here.
#[verifier::external_body]
fn join_path(base: &PathBuf, part: &str) -> (r: PathBuf)
    ensures
        r == joined_path(*base, part@),
{
    base.join(part)
}

/// Where the game keeps its save files and where it reads its assets.
pub struct FileHelper {
    game_dir: PathBuf,
    asset_dir: PathBuf,
}

impl FileHelper {
    pub closed spec fn spec_game_dir(&self) -> PathBuf {
        self.game_dir
    }

    pub closed spec fn spec_asset_dir(&self) -> PathBuf {
        self.asset_dir
    }

    pub fn new(game_dir: PathBuf, asset_dir: PathBuf) -> (r: Self)
        ensures
            r.spec_game_dir() == game_dir,
            r.spec_asset_dir() == asset_dir,
    {
        Self { game_dir, asset_dir }
    }

    /// A path below the game directory.
    pub fn game_path(&self, path: &str) -> (r: PathBuf)
        ensures
            r == joined_path(self.spec_game_dir(), path@),
    {
        join_path(&self.game_dir, path)
    }

    /// A path below the asset directory.
    pub fn asset_path(&self, path: &str) -> (r: PathBuf)
        ensures
            r == joined_path(self.spec_asset_dir(), path@),
    {
        join_path(&self.asset_dir, path)
    }
}

} // verus!
