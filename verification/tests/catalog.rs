use figure_catalog::catalog::{
    analyze_figure, build_character_data, extract_capabilities, figure_dir, relative_path_of,
    skipped_files, Catalog, Character, Costume, ScanError, SkipReason,
};
use figure_catalog::classify::{filter_model_files, TreeEntry, ValidationMode};
use figure_catalog::parse::ParseError;
use figure_catalog::paths::SegmentPath;

const PLAIN: &str = "{\"model\": \"a.moc\", \"physics\": \"p.json\", \"textures\": [], \
                     \"motions\": {\"idle\": []}, \
                     \"expressions\": [{\"name\": \"smile\", \"file\": \"s.exp.json\"}]}";
const RECORD: &str = "{\"motions\": [\"run\", \"jump\"], \"expressions\": [\"wink\"]}\n";

fn path(slashed: &str) -> SegmentPath {
    SegmentPath::new(slashed.split('/').map(|s| s.to_string()).collect())
}

fn file(slashed: &str, content: &str) -> TreeEntry {
    TreeEntry { path: path(slashed), is_dir: false, content: Some(content.to_string()) }
}

fn strings(names: &[&str]) -> Vec<String> {
    names.iter().map(|s| s.to_string()).collect()
}

fn costume(name: &str, path: &str, motions: &[&str], expressions: &[&str]) -> Costume {
    Costume {
        name: name.to_string(),
        path: path.to_string(),
        motions: strings(motions),
        expressions: strings(expressions),
    }
}

fn plain_costume(name: &str, path: &str) -> Costume {
    costume(name, path, &["idle"], &["smile"])
}

fn character(name: &str, path: &str, is_composite: bool, costumes: Vec<Costume>) -> Character {
    Character { name: name.to_string(), path: path.to_string(), costumes, is_composite }
}

fn scan(entries: Vec<TreeEntry>) -> Result<Catalog, ScanError> {
    analyze_figure(&path("base/game/figure"), true, Ok(entries), ValidationMode::Strict)
}

fn names_of(catalog: &Catalog) -> Vec<String> {
    let mut names: Vec<String> = catalog.characters.iter().map(|c| c.name.clone()).collect();
    names.sort();
    names
}

fn costume_paths(catalog: &Catalog, name: &str) -> Vec<String> {
    let mut paths: Vec<String> =
        catalog.get(name).unwrap().costumes.iter().map(|c| c.path.clone()).collect();
    paths.sort();
    paths
}

#[test]
fn costumes_are_grouped_by_character_in_the_order_found() {
    let root = path("base/game/figure");
    let files = vec![
        file("base/game/figure/alice/casual/model.json", PLAIN),
        file("base/game/figure/bob/suit/all.jsonl", RECORD),
        file("base/game/figure/alice/formal/model.json", PLAIN),
    ];
    let catalog = build_character_data(&root, &files).unwrap();
    let expected = Catalog {
        characters: vec![
            character(
                "alice",
                "alice",
                false,
                vec![
                    plain_costume("casual", "alice/casual/model.json"),
                    plain_costume("formal", "alice/formal/model.json"),
                ],
            ),
            character(
                "bob",
                "bob",
                true,
                vec![costume("suit", "bob/suit/all.jsonl", &["run", "jump"], &["wink"])],
            ),
        ],
    };
    assert_eq!(catalog, expected);
}

#[test]
fn a_character_keeps_the_path_and_flag_of_its_first_costume() {
    let root = path("figure");
    let files = vec![
        file("figure/east/hero/casual/all.jsonl", RECORD),
        file("figure/west/hero/formal/model.json", PLAIN),
    ];
    let catalog = build_character_data(&root, &files).unwrap();
    assert_eq!(catalog.len(), 1);
    let hero = catalog.get("hero").unwrap();
    assert_eq!(hero.path, "east/hero");
    assert!(hero.is_composite);
    assert_eq!(hero.costumes.len(), 2);
    assert_eq!(hero.costumes[1], plain_costume("formal", "west/hero/formal/model.json"));
}

#[test]
fn a_costume_directly_below_the_root_is_its_own_character() {
    let root = path("base/game/figure");
    let files = vec![file("base/game/figure/CostumeA/model.json", PLAIN)];
    let catalog = build_character_data(&root, &files).unwrap();
    assert_eq!(
        catalog.characters,
        vec![character(
            "CostumeA",
            "CostumeA",
            false,
            vec![plain_costume("CostumeA", "CostumeA/model.json")]
        )]
    );
}

#[test]
fn relative_paths_use_forward_slashes() {
    let root = path("C:/game/figure");
    let deep = SegmentPath::new(strings(&["C:", "game", "figure", "a\\b", "c", "model.json"]));
    assert_eq!(relative_path_of(&root, &deep), "a/b/c/model.json");
    assert_eq!(relative_path_of(&root, &root), "");
}

#[test]
fn a_descriptor_outside_the_root_fails_the_build() {
    let root = path("base/game/figure");
    let files = vec![
        file("base/game/figure/alice/casual/model.json", PLAIN),
        file("base/game/other/alice/formal/model.json", PLAIN),
        file("elsewhere/bob/suit/model.json", PLAIN),
    ];
    assert_eq!(
        build_character_data(&root, &files),
        Err(ScanError::OutsideRoot(path("base/game/other/alice/formal/model.json")))
    );
    let short = vec![file("base/game", PLAIN)];
    assert_eq!(
        build_character_data(&root, &short),
        Err(ScanError::OutsideRoot(path("base/game")))
    );
}

#[test]
fn no_descriptors_give_the_empty_catalog() {
    assert_eq!(build_character_data(&path("figure"), &vec![]), Ok(Catalog { characters: vec![] }));
    assert_eq!(scan(vec![]), Ok(Catalog::new()));
}

#[test]
fn capabilities_of_an_entry() {
    assert_eq!(
        extract_capabilities(&file("figure/a/b/model.json", PLAIN)),
        Ok((strings(&["idle"]), strings(&["smile"])))
    );
    assert_eq!(
        extract_capabilities(&file("figure/a/b/all.JSONL", RECORD)),
        Ok((strings(&["run", "jump"]), strings(&["wink"])))
    );
    assert_eq!(
        extract_capabilities(&file("figure/a/b/model.json", RECORD)),
        Ok((vec![], vec![]))
    );
}

#[test]
fn every_error_of_an_entry() {
    let unreadable =
        TreeEntry { path: path("figure/a/b/model.json"), is_dir: false, content: None };
    assert_eq!(extract_capabilities(&unreadable), Err(ParseError::Unreadable));
    assert_eq!(
        extract_capabilities(&file("figure/a/b/model.json", "{")),
        Err(ParseError::Malformed)
    );
    assert_eq!(
        extract_capabilities(&file("figure/a/b/all.jsonl", "{}\n")),
        Err(ParseError::NoValidRecord)
    );
}

#[test]
fn a_descriptor_that_gives_nothing_is_passed_over() {
    let root = path("figure");
    let files = vec![
        file("figure/a/first/model.json", "{ not json"),
        file("figure/a/second/all.jsonl", "{}\n[]\n"),
        TreeEntry { path: path("figure/a/third/model.json"), is_dir: false, content: None },
        file("figure/a/fourth/model.json", PLAIN),
    ];
    let catalog = build_character_data(&root, &files).unwrap();
    assert_eq!(
        catalog.characters,
        vec![character("a", "a", false, vec![plain_costume("fourth", "a/fourth/model.json")])]
    );
}

#[test]
fn a_descriptor_without_a_directory_is_passed_over() {
    let files = vec![file("model.json", PLAIN), file("a/model.json", PLAIN)];
    let catalog = build_character_data(&SegmentPath::new(vec![]), &files).unwrap();
    assert_eq!(
        catalog.characters,
        vec![character("a", "a", false, vec![plain_costume("a", "a/model.json")])]
    );
}

#[test]
fn partial_failure_tolerance() {
    let mut entries = Vec::new();
    for name in ["c1", "c2", "c3"] {
        entries.push(file(&format!("base/game/figure/hero/{}/model.json", name), PLAIN));
    }
    entries.push(file("base/game/figure/hero/broken/model.json", "{\"model\": \"a.moc\", "));
    for name in ["c4", "c5"] {
        entries.push(file(&format!("base/game/figure/villain/{}/model.json", name), PLAIN));
    }
    let catalog = scan(entries).unwrap();
    assert_eq!(names_of(&catalog), strings(&["hero", "villain"]));
    assert_eq!(
        costume_paths(&catalog, "hero"),
        strings(&["hero/c1/model.json", "hero/c2/model.json", "hero/c3/model.json"])
    );
    assert_eq!(
        costume_paths(&catalog, "villain"),
        strings(&["villain/c4/model.json", "villain/c5/model.json"])
    );
    let total: usize = catalog.characters.iter().map(|c| c.costumes.len()).sum();
    assert_eq!(total, 5);
}

#[test]
fn root_missing() {
    let root = figure_dir(&path("base"));
    assert_eq!(root, path("base/game/figure"));
    let entries = vec![file("base/game/figure/hero/c1/model.json", PLAIN)];
    assert_eq!(
        analyze_figure(&root, false, Ok(entries), ValidationMode::Strict),
        Err(ScanError::RootNotFound)
    );
    assert_eq!(
        analyze_figure(&root, false, Err("base/game/figure".to_string()), ValidationMode::Loose),
        Err(ScanError::RootNotFound)
    );
}

#[test]
fn a_failed_traversal_gives_no_catalog() {
    let root = path("base/game/figure");
    assert_eq!(
        analyze_figure(&root, true, Err("base/game/figure/locked".to_string()), ValidationMode::Strict),
        Err(ScanError::Traversal("base/game/figure/locked".to_string()))
    );
}

#[test]
fn exclusion_propagation_in_the_catalog() {
    let entries = vec![
        file("base/game/figure/hero/casual/model.json", PLAIN),
        file("base/game/figure/hero/casual/all.jsonl", RECORD),
    ];
    let catalog = scan(entries).unwrap();
    assert_eq!(
        catalog.characters,
        vec![character(
            "hero",
            "hero",
            true,
            vec![costume("casual", "hero/casual/all.jsonl", &["run", "jump"], &["wink"])]
        )]
    );
}

#[test]
fn reserved_suffix_exclusion_in_the_catalog() {
    let entries = vec![
        file("base/game/figure/hero/casual/smile.exp.json", PLAIN),
        file("base/game/figure/hero/casual/model.json", PLAIN),
    ];
    let catalog = scan(entries).unwrap();
    assert_eq!(costume_paths(&catalog, "hero"), strings(&["hero/casual/model.json"]));
}

#[test]
fn a_scan_passes_over_directories_and_other_files() {
    let entries = vec![
        TreeEntry { path: path("base/game/figure/hero/casual.json"), is_dir: true, content: None },
        file("base/game/figure/hero/casual/readme.md", PLAIN),
        file("base/game/figure/hero/casual/model.json", PLAIN),
    ];
    let catalog = scan(entries).unwrap();
    assert_eq!(catalog.len(), 1);
    assert_eq!(costume_paths(&catalog, "hero"), strings(&["hero/casual/model.json"]));
}

#[test]
fn the_mode_of_a_scan_is_the_mode_of_its_validation() {
    let loose = "{\"model\": \"a.moc\", \"textures\": [], \"motions\": {\"idle\": []}}";
    let entries = vec![file("figure/hero/casual/hero.json", loose)];
    let root = path("figure");
    let strict = analyze_figure(&root, true, Ok(entries.clone()), ValidationMode::Strict).unwrap();
    assert_eq!(strict.len(), 0);
    let found = analyze_figure(&root, true, Ok(entries), ValidationMode::Loose).unwrap();
    assert_eq!(
        found.characters,
        vec![character(
            "hero",
            "hero",
            false,
            vec![costume("casual", "hero/casual/hero.json", &["idle"], &[])]
        )]
    );
}

#[test]
fn idempotence() {
    let entries = vec![
        file("base/game/figure/alice/casual/model.json", PLAIN),
        file("base/game/figure/bob/suit/all.jsonl", RECORD),
        file("base/game/figure/bob/suit/model.json", PLAIN),
        file("base/game/figure/alice/formal/model.json", PLAIN),
        file("base/game/figure/carol/model.json", PLAIN),
    ];
    let first = scan(entries.clone()).unwrap();
    let second = scan(entries.clone()).unwrap();
    assert_eq!(first, second);

    let mut reversed = entries;
    reversed.reverse();
    let third = scan(reversed).unwrap();
    assert_eq!(names_of(&first), strings(&["alice", "bob", "carol"]));
    assert_eq!(names_of(&first), names_of(&third));
    for name in ["alice", "bob", "carol"] {
        let mut a = first.get(name).unwrap().costumes.clone();
        let mut b = third.get(name).unwrap().costumes.clone();
        a.sort_by(|x, y| x.path.cmp(&y.path));
        b.sort_by(|x, y| x.path.cmp(&y.path));
        assert_eq!(a, b);
    }
}

#[test]
fn characters_are_found_by_name() {
    let mut catalog = Catalog::new();
    assert_eq!(catalog.find("hero"), 0);
    assert!(catalog.get("hero").is_none());
    catalog.add_costume(
        "hero".to_string(),
        "east/hero".to_string(),
        false,
        plain_costume("casual", "east/hero/casual/model.json"),
    );
    catalog.add_costume(
        "villain".to_string(),
        "villain".to_string(),
        true,
        plain_costume("cape", "villain/cape/all.jsonl"),
    );
    catalog.add_costume(
        "hero".to_string(),
        "west/hero".to_string(),
        true,
        plain_costume("formal", "west/hero/formal/model.json"),
    );
    assert_eq!(catalog.len(), 2);
    assert_eq!(catalog.find("hero"), 0);
    assert_eq!(catalog.find("villain"), 1);
    assert_eq!(catalog.find("nobody"), 2);
    assert_eq!(
        catalog.get("hero"),
        Some(&character(
            "hero",
            "east/hero",
            false,
            vec![
                plain_costume("casual", "east/hero/casual/model.json"),
                plain_costume("formal", "west/hero/formal/model.json"),
            ]
        ))
    );
}

#[test]
fn skipped_files_are_listed_with_their_reasons() {
    let files = vec![
        file("figure/a/c1/model.json", PLAIN),
        TreeEntry { path: path("figure/a/c2/model.json"), is_dir: false, content: None },
        file("figure/a/c3/model.json", "{not json"),
        file("figure/a/c4/all.jsonl", "{}\nnot json\n"),
        TreeEntry { path: path("figure/a/c5/all.jsonl"), is_dir: false, content: None },
        file("figure/a/c4/model.json", "{not json"),
        file("figure/a/c6/smile.exp.json", "{not json"),
        file("figure/a/c7/other.json", "{\"model\": 1}"),
        file("model.json", PLAIN),
        file("figure/a/c8/all.jsonl", RECORD),
    ];
    assert_eq!(
        skipped_files(&files, ValidationMode::Strict),
        vec![
            (1, SkipReason::Unreadable),
            (2, SkipReason::Malformed),
            (3, SkipReason::NoValidRecord),
            (4, SkipReason::Unreadable),
            (8, SkipReason::InsufficientDepth),
        ]
    );
    assert!(skipped_files(&vec![], ValidationMode::Loose).is_empty());
}

#[test]
fn skipped_files_are_those_that_leave_no_costume() {
    let files = vec![
        file("figure/a/c1/model.json", PLAIN),
        file("figure/a/c2/model.json", "{not json"),
        file("figure/a/c3/all.jsonl", "{}\n"),
    ];
    let skipped = skipped_files(&files, ValidationMode::Strict);
    let catalog = build_character_data(
        &path("figure"),
        &filter_model_files(files, ValidationMode::Strict),
    )
    .unwrap();
    assert_eq!(skipped.len(), 2);
    assert_eq!(costume_paths(&catalog, "a"), strings(&["a/c1/model.json"]));
}

#[test]
fn proper_paths_give_names_and_paths_that_are_not_empty() {
    let root = path("base/game/figure");
    let deep = path("base/game/figure/a/b/model.json");
    assert!(root.is_valid() && deep.is_valid());
    let relative = relative_path_of(&root, &deep);
    assert_eq!(relative, "a/b/model.json");
    assert!(!relative.starts_with('/'));

    let odd = SegmentPath::new(strings(&["/", "figure", "", "model.json"]));
    assert!(!odd.is_valid());
    assert_eq!(relative_path_of(&SegmentPath::new(vec![]), &odd), "//figure//model.json");
}
