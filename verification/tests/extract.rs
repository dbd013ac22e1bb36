use org3d::archive::Entry;
use org3d::extract::{
    check_zip, count_files, count_fresh, extract_all, extract_one, find_dest_dir, make_safe_name, plan_entry, record,
    EntryPlan, ExtractResult,
};
use std::io::Write;

fn make_zip(files: &[(&str, &[u8])]) -> Vec<u8> {
    let cursor = std::io::Cursor::new(Vec::new());
    let mut zip = zip::ZipWriter::new(cursor);
    let opts =
        zip::write::SimpleFileOptions::default().compression_method(zip::CompressionMethod::Stored);
    for (name, data) in files {
        zip.start_file(*name, opts).unwrap();
        zip.write_all(data).unwrap();
    }
    zip.finish().unwrap().into_inner()
}

/// Extracts the one archive among files.
fn extract(root: &str, zip_path: &str, data: &[u8], existed: bool) -> (ExtractResult, Vec<EntryPlan>) {
    let files = vec![format!("{root}/other.stl"), zip_path.to_string()];
    let mut results = Vec::new();
    let mut plans = Vec::new();
    for job in extract_all(&files, root) {
        let extracted = if existed {
            None
        } else {
            plans = extract_one(data, &job.dest_dir).unwrap();
            count_files(&plans)
        };
        results.extend(record(&files[job.file], &job.dest_dir, existed, extracted));
    }
    assert_eq!(results.len(), 1);
    (results.remove(0), plans)
}

fn written(plan: &EntryPlan) -> (&str, &[u8]) {
    match plan {
        EntryPlan::WriteFile(p, c) => (p.as_str(), c.as_slice()),
        _ => ("", &[]),
    }
}

#[test]
fn test_extracts_files_from_zip() {
    let zip_data =
        make_zip(&[("model.stl", b"solid\nendsolid\n"), ("readme.txt", b"hello")]);
    let (result, plans) = extract("/models", "/models/pack.zip", &zip_data, false);

    assert_eq!(result.files_extracted, 2);
    assert!(!result.skipped);
    assert_eq!(result.dest_dir, "/models/pack");
    assert_eq!(written(&plans[0]), ("/models/pack/model.stl", &b"solid\nendsolid\n"[..]));
    assert_eq!(written(&plans[1]), ("/models/pack/readme.txt", &b"hello"[..]));
}

#[test]
fn test_skips_already_extracted() {
    let zip_data = make_zip(&[("a.txt", b"content")]);
    let (result, _) = extract("/models", "/models/pack.zip", &zip_data, true);

    assert!(result.skipped);
    assert_eq!(result.files_extracted, 0);
    assert_eq!(result.dest_dir, "/models/pack");
}

#[test]
fn test_path_traversal_rejected() {
    let zip_data = make_zip(&[("../evil.txt", b"pwned")]);
    let (result, plans) = extract("/models", "/models/evil.zip", &zip_data, false);

    let (path, _) = written(&plans[0]);
    assert_ne!(path, "/models/evil.txt", "path traversal must be blocked");
    assert_eq!(path, "/models/evil/evil.txt");
    assert_eq!(result.files_extracted, 1);
}

#[test]
fn test_extracts_nested_dirs() {
    let zip_data = make_zip(&[
        ("parts/base.stl", b"solid\nendsolid\n"),
        ("parts/top.stl", b"solid\nendsolid\n"),
        ("readme.txt", b"hi"),
    ]);
    let (result, plans) = extract("/models", "/models/nested.zip", &zip_data, false);

    assert_eq!(result.files_extracted, 3);
    assert_eq!(result.dest_dir, "/models/nested");
    assert!(written(&plans[0]).0.contains("parts"));
    assert_eq!(written(&plans[0]).0, "/models/nested/parts/base.stl");
}

#[test]
fn names_are_made_safe() {
    assert_eq!(make_safe_name("/abs/file.txt"), "abs/file.txt");
    assert_eq!(make_safe_name("..\\..\\win.txt"), "win.txt");
    assert_eq!(make_safe_name("a//b\\c"), "a/b/c");
    assert_eq!(make_safe_name("./a"), "./a");
    assert_eq!(make_safe_name("../.."), "");
    assert_eq!(make_safe_name("...hidden"), "...hidden");
}

#[test]
fn entries_are_planned() {
    assert!(matches!(plan_entry("/d", "../", Entry::Whole(vec![])), EntryPlan::Skip));
    assert!(matches!(plan_entry("/d", "a/b/", Entry::Whole(vec![])), EntryPlan::MakeDir(p) if p == "/d/a/b"));
    assert!(matches!(plan_entry("/d", "a\\", Entry::Broken(vec![])), EntryPlan::MakeDir(p) if p == "/d/a"));
    assert!(matches!(plan_entry("/d", "a", Entry::Unopened), EntryPlan::Fail));
    assert!(matches!(plan_entry("/d", "a", Entry::Broken(vec![5])), EntryPlan::WritePart(p, c) if p == "/d/a" && c == vec![5]));
    assert!(matches!(plan_entry("/d", "..", Entry::Unopened), EntryPlan::Fail));
    assert!(matches!(plan_entry("/d", "a", Entry::Whole(vec![7])), EntryPlan::WriteFile(p, c) if p == "/d/a" && c == vec![7]));
}

#[test]
fn a_failed_extraction_is_not_recorded() {
    let plans = vec![plan_entry("/d", "a", Entry::Whole(vec![1])), plan_entry("/d", "b", Entry::Broken(vec![2]))];
    assert_eq!(count_files(&plans), None);
    assert!(record("/m/x.zip", "/m/x", false, None).is_none());
    assert!(extract_one(b"this is no archive", "/d").is_none());
}

#[test]
fn a_broken_entry_fails() {
    // the content of the entry no longer has the checksum that the directory names
    let mut data = make_zip(&[("a.txt", b"first"), ("b.txt", b"second")]);
    let at = data.windows(5).position(|w| w == b"first").unwrap();
    data[at] = b'X';
    let plans = extract_one(&data, "/d").unwrap();
    assert_eq!(plans.len(), 1);
    // what came out of it is there, and nothing after it
    assert!(matches!(&plans[0], EntryPlan::WritePart(p, c) if p == "/d/a.txt" && c == b"Xirst"));
    assert_eq!(count_files(&plans), None);
}

#[test]
fn archives_are_found_by_extension() {
    assert!(check_zip("/m/a.zip"));
    assert!(check_zip("/m/a.ZIP"));
    assert!(!check_zip("/m/zip"));
    assert!(!check_zip("/m/.zip"));
    assert!(!check_zip("/m/a.zip.bak"));
}

#[test]
fn directories_stand_beside_their_archives() {
    assert_eq!(find_dest_dir("/m/a/pack.v2.zip", "/m"), "/m/a/pack.v2");
    assert_eq!(find_dest_dir("pack.zip", "/m"), "pack");
}

#[test]
fn fresh_archives_are_counted() {
    let results = vec![
        record("/m/a.zip", "/m/a", false, Some(3)).unwrap(),
        record("/m/b.zip", "/m/b", true, None).unwrap(),
        record("/m/c.zip", "/m/c", false, Some(0)).unwrap(),
    ];
    assert_eq!(count_fresh(&results), 2);
    assert_eq!(results[0].files_extracted, 3);
}

#[test]
fn archives_are_picked_from_files() {
    let files: Vec<String> =
        ["/m/a.stl", "/m/x/b.ZIP", "/m/c.zip", "/m/..zip"].iter().map(|s| s.to_string()).collect();
    let jobs = extract_all(&files, "/m");
    assert_eq!(jobs.len(), 3);
    assert_eq!((jobs[0].file, jobs[0].dest_dir.as_str()), (1, "/m/x/b"));
    assert_eq!((jobs[1].file, jobs[1].dest_dir.as_str()), (2, "/m/c"));
    // a name that is nothing but dots and an extension leaves the directory itself
    assert_eq!(jobs[2].dest_dir, "/m/.");
}

#[test]
fn one_archive_gives_one_result() {
    let data = make_zip(&[("a.txt", b"content")]);
    let files = vec!["/m/x.stl".to_string(), "/m/pack.zip".to_string()];
    let jobs = extract_all(&files, "/m");
    assert_eq!(jobs.len(), 1);
    assert_eq!((jobs[0].file, jobs[0].dest_dir.as_str()), (1, "/m/pack"));
    let extracted = count_files(&extract_one(&data, &jobs[0].dest_dir).unwrap());
    let results: Vec<ExtractResult> =
        record(&files[jobs[0].file], &jobs[0].dest_dir, false, extracted).into_iter().collect();
    assert_eq!(results.len(), 1);
    assert_eq!(results[0].zip_path, "/m/pack.zip");
    assert_eq!(results[0].files_extracted, 1);
}

#[test]
fn plans_below_no_directory_are_relative() {
    assert!(matches!(plan_entry("", "../a/b", Entry::Whole(vec![])), EntryPlan::WriteFile(p, _) if p == "a/b"));
}
