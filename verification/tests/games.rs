use figure_catalog::games::{
    get_game_dir, get_icon_data_url, get_icon_path, list_games, write_file, GameFolder, GameInfo,
    WriteError,
};
use figure_catalog::paths::SegmentPath;

fn path(slashed: &str) -> SegmentPath {
    SegmentPath::new(slashed.split('/').map(|s| s.to_string()).collect())
}

#[test]
fn the_games_lie_in_public_games() {
    assert_eq!(get_game_dir(&path("home/user/app")), path("home/user/app/public/games"));
    assert_eq!(get_game_dir(&SegmentPath::new(vec![])), path("public/games"));
}

#[test]
fn the_icon_lies_in_the_icons_of_the_game() {
    assert_eq!(
        get_icon_path(&path("app/public/games/demo")),
        path("app/public/games/demo/icons/icon-192.png")
    );
}

#[test]
fn a_data_url_holds_the_base64_of_the_icon() {
    assert_eq!(get_icon_data_url(&Some(b"hello".to_vec())), "data:image/png;base64,aGVsbG8=");
    assert_eq!(get_icon_data_url(&Some(vec![0xff, 0xfe, 0xfd])), "data:image/png;base64,//79");
    assert_eq!(get_icon_data_url(&Some(vec![0xfb])), "data:image/png;base64,+w==");
    assert_eq!(get_icon_data_url(&Some(vec![])), "data:image/png;base64,");
}

#[test]
fn a_game_without_an_icon_has_an_empty_data_url() {
    assert_eq!(get_icon_data_url(&None), "");
}

#[test]
fn games_are_listed_in_the_order_of_their_folders() {
    let folders = vec![
        GameFolder {
            name: "demo".to_string(),
            path: "/app/public/games/demo".to_string(),
            icon: Some(b"hello".to_vec()),
        },
        GameFolder { name: "bare".to_string(), path: "/app/public/games/bare".to_string(), icon: None },
    ];
    let games = list_games(&folders);
    assert_eq!(
        games,
        vec![
            (
                "demo".to_string(),
                GameInfo {
                    icon: "data:image/png;base64,aGVsbG8=".to_string(),
                    path: "/app/public/games/demo".to_string(),
                }
            ),
            (
                "bare".to_string(),
                GameInfo { icon: String::new(), path: "/app/public/games/bare".to_string() }
            ),
        ]
    );
    assert!(list_games(&vec![]).is_empty());
}

#[test]
fn the_writer_spares_a_file_that_exists() {
    assert_eq!(write_file(true, false), Err(WriteError::AlreadyExists));
    assert_eq!(write_file(true, true), Ok(()));
    assert_eq!(write_file(false, false), Ok(()));
    assert_eq!(write_file(false, true), Ok(()));
}
