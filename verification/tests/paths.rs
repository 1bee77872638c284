use stdf_convert::paths::{exit_code, is_stdf_input};
use stdf_convert::{output_path, stem};

#[test]
fn stems() {
    assert_eq!(stem("lot1.stdf"), ("lot1", true));
    assert_eq!(stem("lot1.STD.gz"), ("lot1", true));
    assert_eq!(stem("lot1.stdf.bz2"), ("lot1", true));
    assert_eq!(stem("lot1.zip"), ("lot1", false));
    assert_eq!(stem("notes.txt"), ("notes.txt", false));
}

#[test]
fn stem_edge_cases() {
    assert_eq!(stem(""), ("", false));
    assert_eq!(stem(".stdf"), ("", true));
    assert_eq!(stem("a.gz"), ("a", false));
    assert_eq!(stem("a.StDf.ZiP"), ("a", true));
    assert_eq!(stem("a.stdf.gz.gz"), ("a.stdf.gz", false));
    assert_eq!(stem("résumé.std"), ("résumé", true));
    assert_eq!(stem("a.tstdf"), ("a.tstdf", false));
    assert_eq!(stem("a.x.stdf"), ("a.x", true));
}

#[test]
fn output_paths() {
    assert_eq!(output_path("results.stdf.gz"), "results.jsonl");
    assert_eq!(output_path("lots/a.stdf.gz"), "lots/a.jsonl");
    assert_eq!(output_path("/data/lot1.STD"), "/data/lot1.jsonl");
    assert_eq!(output_path("x/notes.txt"), "x/notes.txt.jsonl");
    assert_eq!(output_path("x/lot1.zip"), "x/lot1.jsonl");
    assert_eq!(output_path("a.b/c"), "a.b/c.jsonl");
}

#[test]
fn output_stays_in_the_input_folder() {
    let out = output_path("some/deep/folder/lot.stdf.bz2");
    assert!(out.starts_with("some/deep/folder/"));
    assert!(out.ends_with(".jsonl"));
    assert!(!out["some/deep/folder/".len()..].contains('/'));
}

#[test]
fn inputs_found_in_folders() {
    assert!(is_stdf_input("lot1.stdf"));
    assert!(is_stdf_input("lot1.STD.bz2"));
    assert!(!is_stdf_input("._lot1.stdf"));
    assert!(is_stdf_input("_lot1.stdf"));
    assert!(!is_stdf_input("lot1.zip"));
    assert!(!is_stdf_input("notes.txt"));
}

#[test]
fn exit_codes() {
    assert_eq!(exit_code(0, 0), 1);
    assert_eq!(exit_code(3, 0), 0);
    assert_eq!(exit_code(3, 1), 1);
}

#[test]
fn output_paths_follow_path_components() {
    assert_eq!(output_path("d/a.stdf/"), "d/a.jsonl");
    assert_eq!(output_path("a/./b.stdf"), "a/b.jsonl");
    assert_eq!(output_path("a/b.stdf/."), "a/b.jsonl");
    assert_eq!(output_path("./x.std"), "./x.jsonl");
    assert_eq!(output_path("//a.stdf"), "/a.jsonl");
    assert_eq!(output_path("a//b.stdf"), "a/b.jsonl");
    assert_eq!(output_path("."), "./.jsonl");
    assert_eq!(output_path(""), ".jsonl");
    assert_eq!(output_path("/"), "/.jsonl");
    assert_eq!(output_path("a/.."), "a/../.jsonl");
}

#[test]
fn output_paths_agree_with_std_path() {
    let parts = ["", "/", ".", "..", "a", "b.stdf", "c.STD.gz", "/", "//", "./", "x.zip"];
    let mut checked = 0;
    for x in parts {
        for y in parts {
            for z in parts {
                let input = format!("{x}{y}{z}");
                let path = std::path::Path::new(&input);
                let name = path.file_name().map(|n| n.to_str().unwrap().to_string()).unwrap_or_default();
                let expected = path.with_file_name(format!("{}.jsonl", stem(&name).0));
                assert_eq!(output_path(&input), expected.to_str().unwrap(), "input {input:?}");
                checked += 1;
            }
        }
    }
    assert_eq!(checked, 1331);
}
