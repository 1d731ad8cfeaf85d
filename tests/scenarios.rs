use tagfs::index::TagFS;
use tagfs::ino::{Ino, ROOT_INO};
use tagfs::ops::{DirEntry, Entry, EntryKind, FsError};
use tagfs::savefile::decode_state;

fn source(names: &[&str]) -> Vec<Vec<u8>> {
    names.iter().map(|n| n.as_bytes().to_vec()).collect()
}

fn mounted(names: &[&str]) -> TagFS {
    let mut fs = TagFS::new();
    fs.repopulate(&source(names));
    fs
}

fn dir(fs: &mut TagFS, parent: u64, name: &str) -> u64 {
    match fs.lookup(parent, name.as_bytes()) {
        Ok(Entry::Folder(ino)) => ino,
        other => panic!("{} is no directory: {:?}", name, other),
    }
}

fn listing(fs: &mut TagFS, ino: u64) -> Vec<DirEntry> {
    fs.readdir(ino, 0).expect("readdir failed")
}

fn names_of(entries: &[DirEntry], kind: EntryKind) -> Vec<String> {
    let mut v: Vec<String> = entries
        .iter()
        .filter(|e| e.kind == kind)
        .map(|e| String::from_utf8(e.name.clone()).unwrap())
        .filter(|n| n != "." && n != "..")
        .collect();
    v.sort();
    v
}

fn files_in(fs: &mut TagFS, ino: u64) -> Vec<String> {
    let l = listing(fs, ino);
    names_of(&l, EntryKind::RegularFile)
}

fn dirs_in(fs: &mut TagFS, ino: u64) -> Vec<String> {
    let l = listing(fs, ino);
    names_of(&l, EntryKind::Directory)
}

fn tag_file(fs: &mut TagFS, file: &str, tag_dir: u64) {
    fs.rename(ROOT_INO, file.as_bytes(), tag_dir, file.as_bytes()).expect("move failed");
}

#[test]
fn empty_source_and_two_tags() {
    let mut fs = mounted(&[]);
    let red = fs.mkdir(b"red").unwrap();
    let blue = fs.mkdir(b"blue").unwrap();
    assert!(Ino(red).is_tag());
    assert!(Ino(blue).is_tag());
    assert_ne!(red, blue);
    let l = listing(&mut fs, ROOT_INO);
    assert_eq!(l[0].name, b".".to_vec());
    assert_eq!(l[1].name, b"..".to_vec());
    assert_eq!(l.len(), 4);
    assert_eq!(names_of(&l, EntryKind::Directory), vec!["blue", "red"]);
    assert!(names_of(&l, EntryKind::RegularFile).is_empty());

    let bytes = fs.save();
    let st = decode_state(&bytes).expect("savefile does not decode");
    assert_eq!(st.tags.len(), 2);
    assert_eq!(st.tag_content.len(), 2);
    assert!(st.tag_content.iter().all(|(_, files)| files.is_empty()));
    let mut tag_names: Vec<Vec<u8>> = st.tags.iter().map(|(_, n)| n.clone()).collect();
    tag_names.sort();
    assert_eq!(tag_names, vec![b"blue".to_vec(), b"red".to_vec()]);
}

#[test]
fn tag_one_file() {
    let mut fs = mounted(&["a.txt", "b.txt"]);
    fs.mkdir(b"red").unwrap();
    fs.mkdir(b"blue").unwrap();
    let red = dir(&mut fs, ROOT_INO, "red");
    tag_file(&mut fs, "a.txt", red);
    assert_eq!(files_in(&mut fs, red), vec!["a.txt"]);
    assert_eq!(files_in(&mut fs, ROOT_INO), vec!["a.txt", "b.txt"]);
    assert_eq!(dirs_in(&mut fs, ROOT_INO), vec!["blue", "red"]);
}

fn three_files_two_tags() -> (TagFS, u64, u64) {
    let mut fs = mounted(&["x", "y", "z"]);
    fs.mkdir(b"red").unwrap();
    fs.mkdir(b"blue").unwrap();
    let red = dir(&mut fs, ROOT_INO, "red");
    let blue = dir(&mut fs, ROOT_INO, "blue");
    tag_file(&mut fs, "x", red);
    tag_file(&mut fs, "x", blue);
    tag_file(&mut fs, "y", red);
    tag_file(&mut fs, "z", blue);
    (fs, red, blue)
}

#[test]
fn intersection_of_two_tags() {
    let (mut fs, red, blue) = three_files_two_tags();
    let red_blue = dir(&mut fs, red, "blue");
    assert_eq!(files_in(&mut fs, red_blue), vec!["x"]);
    assert_eq!(files_in(&mut fs, red), vec!["x", "y"]);
    let blue_red = dir(&mut fs, blue, "red");
    assert_eq!(files_in(&mut fs, blue_red), vec!["x"]);
    assert_ne!(red_blue, blue_red);
    // Below a tag, only the other tags are offered.
    assert_eq!(dirs_in(&mut fs, red), vec!["blue"]);
}

#[test]
fn untag_via_unlink() {
    let (mut fs, red, blue) = three_files_two_tags();
    fs.unlink(red, b"x").unwrap();
    assert_eq!(files_in(&mut fs, red), vec!["y"]);
    assert_eq!(files_in(&mut fs, blue), vec!["x", "z"]);
    assert_eq!(files_in(&mut fs, ROOT_INO), vec!["x", "y", "z"]);
    assert!(fs.get_fnb_by_name(b"x").is_some());
}

#[test]
fn rename_a_tag() {
    let (mut fs, _red, _blue) = three_files_two_tags();
    fs.rename(ROOT_INO, b"red", ROOT_INO, b"crimson").unwrap();
    assert_eq!(dirs_in(&mut fs, ROOT_INO), vec!["blue", "crimson"]);
    let crimson = dir(&mut fs, ROOT_INO, "crimson");
    assert_eq!(files_in(&mut fs, crimson), vec!["x", "y"]);
    assert_eq!(fs.lookup(ROOT_INO, b"red").unwrap_err(), FsError::NotFound);
}

#[test]
fn restart_preserves_state() {
    let (fs, _red, _blue) = three_files_two_tags();
    let bytes = fs.save();
    let mut fs = TagFS::new_from_save(&bytes).expect("savefile does not load");
    // `z` was deleted from the source and `new.txt` added.
    fs.repopulate(&source(&["x", "y", "new.txt", ".tagfs"]));
    assert_eq!(files_in(&mut fs, ROOT_INO), vec!["new.txt", "x", "y"]);
    let red = dir(&mut fs, ROOT_INO, "red");
    let blue = dir(&mut fs, ROOT_INO, "blue");
    assert_eq!(files_in(&mut fs, red), vec!["x", "y"]);
    assert_eq!(files_in(&mut fs, blue), vec!["x"]);
    let new_number = fs.get_fnb_by_name(b"new.txt").unwrap();
    assert!(new_number > 4);
    // A tag made after the restart does not take the number of an old one.
    let green = fs.mkdir(b"green").unwrap();
    assert_ne!(Ino(green).tag(), fs.get_tnb_by_name(b"red").unwrap());
    assert_ne!(Ino(green).tag(), fs.get_tnb_by_name(b"blue").unwrap());
    assert_eq!(files_in(&mut fs, red), vec!["x", "y"]);
}
