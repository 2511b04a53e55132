use cpr::scan::{bytes_in_file_list, checked_total, scan_source_prep_dest, FsEntry};

fn file(name: &str, size: u64) -> FsEntry {
    FsEntry::File { name: name.to_string(), is_symlink: false, size }
}

fn link(name: &str, size: u64) -> FsEntry {
    FsEntry::File { name: name.to_string(), is_symlink: true, size }
}

fn dir(name: &str, entries: Vec<FsEntry>) -> FsEntry {
    FsEntry::Dir { name: name.to_string(), entries }
}

#[test]
fn files_appear_at_corresponding_paths() {
    let root = dir(
        "root",
        vec![
            file("a.txt", 5),
            dir("sub", vec![file("b.txt", 7), link("c", 3)]),
            dir("empty", vec![]),
        ],
    );
    let (dirs, manifest) = scan_source_prep_dest(&root, "/from", "/to");

    assert_eq!(manifest.len(), 3);
    assert_eq!(manifest[0].src_path, "/from/a.txt");
    assert_eq!(manifest[0].dst_path, "/to/a.txt");
    assert!(!manifest[0].is_symlink);
    assert_eq!(manifest[0].size, 5);
    assert_eq!(manifest[1].src_path, "/from/sub/b.txt");
    assert_eq!(manifest[1].dst_path, "/to/sub/b.txt");
    assert_eq!(manifest[1].size, 7);
    assert_eq!(manifest[2].src_path, "/from/sub/c");
    assert_eq!(manifest[2].dst_path, "/to/sub/c");
    assert!(manifest[2].is_symlink);
    assert_eq!(manifest[2].size, 3);

    // Every directory, including the empty one, gets a destination entry,
    // and each directory is listed after its parent.
    assert_eq!(dirs.len(), 3);
    assert_eq!(dirs[0], "/to");
    assert_eq!(dirs[1], "/to/sub");
    assert_eq!(dirs[2], "/to/empty");

    assert_eq!(bytes_in_file_list(&manifest), 15);
}

#[test]
fn deeply_nested_paths_accumulate_components() {
    let root = dir("r", vec![dir("x", vec![dir("y", vec![file("z", 1)])])]);
    let (dirs, manifest) = scan_source_prep_dest(&root, "/s", "/d");
    assert_eq!(dirs, vec!["/d", "/d/x", "/d/x/y"]);
    assert_eq!(manifest.len(), 1);
    assert_eq!(manifest[0].src_path, "/s/x/y/z");
    assert_eq!(manifest[0].dst_path, "/d/x/y/z");
}

#[test]
fn empty_source_tree_yields_no_tasks() {
    let root = dir("root", vec![]);
    let (dirs, manifest) = scan_source_prep_dest(&root, "/from", "/to");
    assert_eq!(dirs.len(), 1);
    assert_eq!(dirs[0], "/to");
    assert!(manifest.is_empty());
    assert_eq!(bytes_in_file_list(&manifest), 0);
}

#[test]
fn byte_total_sums_all_tasks() {
    let root = dir("root", vec![file("a", 100), file("b", 200), link("l", 9)]);
    let (_, manifest) = scan_source_prep_dest(&root, "/p", "/q");
    assert_eq!(bytes_in_file_list(&manifest), 309);
    assert_eq!(checked_total(&manifest), Some(309));
}

#[test]
fn overflowing_byte_total_is_reported() {
    let root = dir("root", vec![file("big1", u64::MAX), file("big2", 1)]);
    let (_, manifest) = scan_source_prep_dest(&root, "/p", "/q");
    assert_eq!(checked_total(&manifest), None);
    let root = dir("root", vec![file("big", u64::MAX)]);
    let (_, manifest) = scan_source_prep_dest(&root, "/p", "/q");
    assert_eq!(checked_total(&manifest), Some(u64::MAX));
}
