use figure_catalog::classify::{
    check_document, check_required_keys, classify_model_files, descriptor_kind,
    filter_model_files, find_model_files, kind_of_file_name, validate_model_file, TreeEntry,
    ValidationMode, Verdict,
};
use figure_catalog::json::Json;
use figure_catalog::parse::DescriptorKind;
use figure_catalog::paths::SegmentPath;

const FULL: &str = "{\"model\": \"a.moc\", \"physics\": \"p.json\", \"textures\": [], \
                    \"motions\": {\"idle\": []}, \"expressions\": []}";
const LOOSE: &str = "{\"model\": \"a.moc\", \"textures\": []}";
const RECORD: &str = "{\"motions\": [\"idle\"], \"expressions\": [\"smile\"]}\n";

fn path(slashed: &str) -> SegmentPath {
    SegmentPath::new(slashed.split('/').map(|s| s.to_string()).collect())
}

fn file(slashed: &str, content: &str) -> TreeEntry {
    TreeEntry { path: path(slashed), is_dir: false, content: Some(content.to_string()) }
}

fn unreadable(slashed: &str) -> TreeEntry {
    TreeEntry { path: path(slashed), is_dir: false, content: None }
}

fn directory(slashed: &str) -> TreeEntry {
    TreeEntry { path: path(slashed), is_dir: true, content: None }
}

fn paths(entries: &[TreeEntry]) -> Vec<String> {
    entries.iter().map(|e| e.path.segments.join("/")).collect()
}

#[test]
fn the_extension_gives_the_encoding() {
    assert_eq!(kind_of_file_name("model.json"), Some(DescriptorKind::Plain));
    assert_eq!(kind_of_file_name("face.exp.json"), Some(DescriptorKind::Plain));
    assert_eq!(kind_of_file_name("a.jsonl"), Some(DescriptorKind::Composite));
    assert_eq!(kind_of_file_name("a.JSONL"), Some(DescriptorKind::Composite));
    assert_eq!(kind_of_file_name("a.JsonL"), Some(DescriptorKind::Composite));
    assert_eq!(kind_of_file_name("a.json.jsonl"), Some(DescriptorKind::Composite));
}

#[test]
fn other_extensions_give_no_encoding() {
    assert_eq!(kind_of_file_name("a.JSON"), None);
    assert_eq!(kind_of_file_name("a.txt"), None);
    assert_eq!(kind_of_file_name("a.jsonl.bak"), None);
    assert_eq!(kind_of_file_name("a.jsonx"), None);
    assert_eq!(kind_of_file_name("a.jso"), None);
    assert_eq!(kind_of_file_name("a."), None);
    assert_eq!(kind_of_file_name("json"), None);
    assert_eq!(kind_of_file_name(""), None);
}

#[test]
fn a_name_that_is_only_an_extension_has_none() {
    assert_eq!(kind_of_file_name(".json"), None);
    assert_eq!(kind_of_file_name(".jsonl"), None);
    assert_eq!(kind_of_file_name("..json"), Some(DescriptorKind::Plain));
}

#[test]
fn the_encoding_of_a_path_is_that_of_its_last_segment() {
    assert_eq!(descriptor_kind(&path("a.jsonl/b/model.json")), Some(DescriptorKind::Plain));
    assert_eq!(descriptor_kind(&path("a.json/b/model.jsonl")), Some(DescriptorKind::Composite));
    assert_eq!(descriptor_kind(&path("a.json/b")), None);
    assert_eq!(descriptor_kind(&SegmentPath::new(vec![])), None);
}

#[test]
fn candidates_are_the_files_with_a_descriptor_extension() {
    let entries = vec![
        file("figure/a/c/model.json", FULL),
        file("figure/a/c/readme.txt", "hello"),
        directory("figure/a/dir.json"),
        file("figure/b/c/all.jsonl", RECORD),
        directory("figure/b/c"),
        unreadable("figure/b/d/other.json"),
        file("figure/b/d/UPPER.JSON", FULL),
    ];
    let found = find_model_files(entries);
    assert_eq!(
        paths(&found),
        vec!["figure/a/c/model.json", "figure/b/c/all.jsonl", "figure/b/d/other.json"]
    );
}

#[test]
fn exclusion_propagation() {
    let files = vec![
        file("figure/hero/casual/model.json", FULL),
        file("figure/hero/casual/all.jsonl", RECORD),
    ];
    let kept = filter_model_files(files, ValidationMode::Strict);
    assert_eq!(paths(&kept), vec!["figure/hero/casual/all.jsonl"]);
}

#[test]
fn exclusion_reaches_into_subdirectories_and_not_beside_them() {
    let files = vec![
        file("figure/hero/casual/deep/down/model.json", FULL),
        file("figure/hero/casual2/model.json", FULL),
        file("figure/hero/model.json", FULL),
        file("figure/hero/casual/all.jsonl", RECORD),
        file("figure/hero/casual/second.jsonl", "nothing"),
        file("figure/hero/casual/x.model3.json", FULL),
    ];
    let kept = filter_model_files(files, ValidationMode::Strict);
    assert_eq!(
        paths(&kept),
        vec![
            "figure/hero/casual2/model.json",
            "figure/hero/model.json",
            "figure/hero/casual/all.jsonl",
            "figure/hero/casual/second.jsonl",
        ]
    );
}

#[test]
fn a_composite_file_at_the_top_excludes_every_plain_file() {
    let files = vec![file("a/b/model.json", FULL), file("all.jsonl", RECORD)];
    let kept = filter_model_files(files, ValidationMode::Loose);
    assert_eq!(paths(&kept), vec!["all.jsonl"]);
}

#[test]
fn reserved_suffix_exclusion() {
    let files = vec![
        file("figure/hero/casual/smile.exp.json", FULL),
        file("figure/hero/casual/.exp.json", FULL),
        file("figure/hero/casual/exp.json", FULL),
        file("figure/hero/casual/model.exp.json", FULL),
    ];
    let kept = filter_model_files(files.clone(), ValidationMode::Strict);
    assert_eq!(paths(&kept), vec!["figure/hero/casual/exp.json"]);
    let kept = filter_model_files(files, ValidationMode::Loose);
    assert_eq!(paths(&kept), vec!["figure/hero/casual/exp.json"]);
}

#[test]
fn a_model_name_needs_a_document_but_not_its_keys() {
    let files = vec![
        file("figure/a/c/model.json", "not json"),
        file("figure/a/d/hero.model3.json", "{}"),
        unreadable("figure/a/e/model3.json"),
        file("figure/a/f/model4.json", "{}"),
        unreadable("figure/a/g/other.json"),
        file("figure/a/h/other.json", "not json"),
        file("figure/a/i/model.json", "[]"),
    ];
    let kept = filter_model_files(files, ValidationMode::Loose);
    assert_eq!(paths(&kept), vec!["figure/a/d/hero.model3.json", "figure/a/i/model.json"]);
}

#[test]
fn a_file_that_does_not_parse_is_skipped_and_later_files_are_examined() {
    let files = vec![
        file("/r/figure/A/c1/model.json", "{not json"),
        file(
            "/r/figure/A/c2/model.json",
            "{\"model\":1,\"physics\":1,\"textures\":[],\"motions\":{},\"expressions\":[]}",
        ),
    ];
    let kept = filter_model_files(files, ValidationMode::Strict);
    assert_eq!(paths(&kept), vec!["/r/figure/A/c2/model.json"]);
}

#[test]
fn every_verdict() {
    let files = vec![
        file("figure/a/c/all.jsonl", "nothing"),
        file("figure/a/c/model.json", FULL),
        file("figure/a/d/smile.exp.json", FULL),
        unreadable("figure/a/d/model.json"),
        file("figure/a/e/model.json", "{not json"),
        file("figure/a/f/other.json", "{\"model\": 1}"),
        file("figure/a/g/other.json", FULL),
        file("figure/a/h/model3.json", "{}"),
        unreadable("figure/a/c/sub/face.exp.json"),
    ];
    let verdicts = classify_model_files(&files, ValidationMode::Strict);
    assert_eq!(
        verdicts,
        vec![
            Verdict::Descriptor,
            Verdict::UnderComposite,
            Verdict::Reserved,
            Verdict::Unreadable,
            Verdict::Malformed,
            Verdict::MissingKeys,
            Verdict::Descriptor,
            Verdict::Descriptor,
            Verdict::Reserved,
        ]
    );
    let kept = filter_model_files(files, ValidationMode::Strict);
    assert_eq!(
        paths(&kept),
        vec!["figure/a/c/all.jsonl", "figure/a/g/other.json", "figure/a/h/model3.json"]
    );
}

#[test]
fn the_mode_decides_which_keys_are_required() {
    let files = vec![
        file("figure/a/c/full.json", FULL),
        file("figure/a/d/loose.json", LOOSE),
        file("figure/a/e/none.json", "{\"model\": 1}"),
        file("figure/a/f/list.json", "[\"model\", \"textures\"]"),
    ];
    let kept = filter_model_files(files.clone(), ValidationMode::Strict);
    assert_eq!(paths(&kept), vec!["figure/a/c/full.json"]);
    let kept = filter_model_files(files, ValidationMode::Loose);
    assert_eq!(paths(&kept), vec!["figure/a/c/full.json", "figure/a/d/loose.json"]);
}

#[test]
fn the_order_of_the_candidates_is_kept() {
    let files = vec![
        file("z/z/model.json", FULL),
        file("a/a/b.jsonl", RECORD),
        file("m/m/model.json", FULL),
        file("b/b/model.json", FULL),
    ];
    let kept = filter_model_files(files, ValidationMode::Strict);
    assert_eq!(
        paths(&kept),
        vec!["z/z/model.json", "a/a/b.jsonl", "m/m/model.json", "b/b/model.json"]
    );
}

#[test]
fn content_is_validated_by_its_keys() {
    assert!(validate_model_file(FULL, ValidationMode::Strict));
    assert!(validate_model_file(FULL, ValidationMode::Loose));
    assert!(!validate_model_file(LOOSE, ValidationMode::Strict));
    assert!(validate_model_file(LOOSE, ValidationMode::Loose));
    assert!(!validate_model_file("{\"model\": 1, \"textures\": ", ValidationMode::Loose));
    assert!(!validate_model_file("", ValidationMode::Loose));
    assert!(validate_model_file("{\"textures\": null, \"model\": null}", ValidationMode::Loose));
}

#[test]
fn each_strict_key_is_required() {
    let keys = ["model", "physics", "textures", "motions", "expressions"];
    for missing in keys {
        let members: Vec<(String, Json)> =
            keys.iter().filter(|k| **k != missing).map(|k| (k.to_string(), Json::Null)).collect();
        let doc = Json::Object(members);
        assert!(!check_required_keys(&doc, ValidationMode::Strict));
        let loose = missing != "model" && missing != "textures";
        assert_eq!(check_required_keys(&doc, ValidationMode::Loose), loose);
    }
    assert!(!check_document(&None, ValidationMode::Loose));
}
