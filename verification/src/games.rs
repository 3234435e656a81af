//! The game folders of an installation, each with its icon as a data URL, and
//! the rule of the guarded file writer.

use vstd::prelude::*;
use vstd::string::*;
use crate::paths::SegmentPath;

verus! {

/// What is shown of one game.
#[derive(Debug, Clone, PartialEq, Eq)]
pub struct GameInfo {
    /// The icon as a data URL; empty where the game has no icon.
    pub icon: String,
    /// The folder of the game.
    pub path: String,
}

/// A `GameInfo` as plain values.
pub struct GameInfoView {
    pub icon: Seq<char>,
    pub path: Seq<char>,
}

impl View for GameInfo {
    type V = GameInfoView;

    open spec fn view(&self) -> GameInfoView {
        GameInfoView { icon: self.icon@, path: self.path@ }
    }
}

/// A folder found in the games directory.
#[derive(Debug, Clone, PartialEq, Eq)]
pub struct GameFolder {
    /// The name of the folder.
    pub name: String,
    /// The folder's path, as the platform writes it.
    pub path: String,
    /// The bytes of the folder's icon file, where it has one.
    pub icon: Option<Vec<u8>>,
}

/// Why the guarded writer does not write.
#[derive(Debug, Clone, Copy, PartialEq, Eq, Structural)]
pub enum WriteError {
    /// The file exists and overwriting was not asked for.
    AlreadyExists,
}

/// The text of the standard base64 encoding, with padding, of the bytes.
pub uninterp spec fn base64_text(data: Seq<u8>) -> Seq<char>;

/// The base64 encoding of `len` bytes has a length that fits in `usize`.
pub open spec fn fits_base64(len: nat) -> bool {
    (len / 3) * 4 + 4 <= usize::MAX
}

/// Calls `encode` of base64's `STANDARD` engine. The encoding depends on the
/// bytes alone. The call panics where the length of the encoding overflows
/// `usize`, which `requires` rules out.
#[verifier::external_body]
fn encode_base64(data: &Vec<u8>) -> (r: String)
    requires
        fits_base64(data@.len()),
    ensures
        r@ == base64_text(data@),
{
    base64::Engine::encode(&base64::engine::general_purpose::STANDARD, data)
}

/// The data URL of an icon: empty for no icon, else the PNG prefix and the
/// base64 encoding of the bytes.
pub open spec fn icon_data_url(icon: Option<Seq<u8>>) -> Seq<char> {
    match icon {
        Some(data) => "data:image/png;base64,"@ + base64_text(data),
        None => Seq::empty(),
    }
}

/// The bytes of an icon, where there is one.
pub open spec fn icon_bytes(icon: Option<Vec<u8>>) -> Option<Seq<u8>> {
    match icon {
        Some(data) => Some(data@),
        None => None,
    }
}

/// The icon is small enough to be encoded.
pub open spec fn icon_fits(icon: Option<Vec<u8>>) -> bool {
    match icon {
        Some(data) => fits_base64(data@.len()),
        None => true,
    }
}

/// What is shown of a folder.
pub open spec fn game_info(folder: GameFolder) -> GameInfoView {
    GameInfoView { icon: icon_data_url(icon_bytes(folder.icon)), path: folder.path@ }
}

/// The directory that holds the game folders: `public/games` below the base.
pub fn get_game_dir(base_path: &SegmentPath) -> (dir: SegmentPath)
    ensures
        dir@ == base_path@.push("public"@).push("games"@),
{
    base_path.child("public").child("games")
}

/// Where the icon of a game lies: `icons/icon-192.png` below its folder.
pub fn get_icon_path(game_path: &SegmentPath) -> (icon: SegmentPath)
    ensures
        icon@ == game_path@.push("icons"@).push("icon-192.png"@),
{
    game_path.child("icons").child("icon-192.png")
}

/// The data URL of an icon.
pub fn get_icon_data_url(icon: &Option<Vec<u8>>) -> (url: String)
    requires
        icon_fits(*icon),
    ensures
        url@ == icon_data_url(icon_bytes(*icon)),
{
    match icon {
        Some(data) => {
            let encoded = encode_base64(data);
            let mut url = "data:image/png;base64,".to_owned();
            url.append(encoded.as_str());
            url
        },
        None => String::new(),
    }
}

/// The games, one for each folder and in the order of the folders, each with
/// the name of its folder.
pub fn list_games(folders: &Vec<GameFolder>) -> (games: Vec<(String, GameInfo)>)
    requires
        forall|i: int| 0 <= i < folders.len() ==> icon_fits((#[trigger] folders[i]).icon),
    ensures
        games.len() == folders.len(),
        forall|i: int|
            0 <= i < games.len() ==> (#[trigger] games[i]).0@ == folders[i].name@ && games[i].1@
                == game_info(folders[i]),
{
    let mut games: Vec<(String, GameInfo)> = Vec::new();
    let mut k: usize = 0;
    while k < folders.len()
        invariant
            k <= folders.len(),
            games.len() == k,
            forall|i: int| 0 <= i < folders.len() ==> icon_fits((#[trigger] folders[i]).icon),
            forall|i: int|
                0 <= i < k ==> (#[trigger] games[i]).0@ == folders[i].name@ && games[i].1@
                    == game_info(folders[i]),
        decreases folders.len() - k,
    {
        let folder = &folders[k];
        let icon = get_icon_data_url(&folder.icon);
        games.push((folder.name.clone(), GameInfo { icon, path: folder.path.clone() }));
        k += 1;
    }
    games
}

/// Whether the guarded writer may write: it may unless the file exists and
/// overwriting was not asked for.
pub fn write_file(exists: bool, overwrite: bool) -> (r: Result<(), WriteError>)
    ensures
        r is Ok <==> overwrite || !exists,
{
    if overwrite || !exists {
        Ok(())
    } else {
        Err(WriteError::AlreadyExists)
    }
}

} // verus!
