use std::collections::HashSet;

use tagfs::index::{bytes_eq, savefile_name_bytes, TagFS};
use tagfs::ino::{Ino, HALF_MAX, ROOT_INO};
use tagfs::ops::{Entry, FileHandle, FsError};
use tagfs::persist::LoadError;
use tagfs::savefile::{decode_state, encode_state, PersistentState};
use tagfs::tree::TagTree;

#[test]
fn inode_halves() {
    let ino = Ino::from_parts(5, 7);
    assert_eq!(ino.0, (5u64 << 32) | 7);
    assert_eq!(ino.file(), 5);
    assert_eq!(ino.tag(), 7);
    assert!(ino.is_file());
    assert!(!ino.is_tag());
    let top = Ino::from_parts(HALF_MAX, HALF_MAX);
    assert_eq!(top.0, u64::MAX);
    assert_eq!(top.file(), HALF_MAX);
    assert_eq!(top.tag(), HALF_MAX);
}

#[test]
fn inode_classification() {
    let root = Ino(ROOT_INO);
    assert!(root.is_tag());
    assert!(!root.is_file());
    assert_eq!(root.tag(), 1);
    assert_eq!(Ino::from_tag(9), Ino(9));
    assert!(Ino::from_tag(9).is_tag());
    assert!(Ino(1u64 << 32).is_file());
    assert_eq!(Ino(1u64 << 32).tag(), 0);
    for v in [0u64, 1, 0xFFFF_FFFF, 1u64 << 32, u64::MAX] {
        assert_ne!(Ino(v).is_tag(), Ino(v).is_file());
        assert_eq!(Ino(v).is_tag(), Ino(v).file() == 0);
    }
}

#[test]
fn tree_grows_and_resolves() {
    let mut tree = TagTree::new();
    assert_eq!(tree.counter, 1);
    let t = tree.create_new();
    assert_eq!(t, 2);
    let child = tree.add_to(t, 40);
    assert_eq!(child, 3);
    let node = tree.lookup(child).unwrap();
    assert_eq!(node.tag, 40);
    assert_eq!(node.parent, Some(2));
    assert_eq!(node.collect_tags(&tree), vec![2, 40]);
    assert_eq!(tree.lookup(ROOT_INO).unwrap().collect_tags(&tree), Vec::<u64>::new());
    assert!(tree.lookup(4).is_none());
    assert!(tree.lookup(0).is_none());
    let parent = tree.lookup(t).unwrap();
    assert_eq!(parent.find_child(&tree, 40), Some(3));
    assert_eq!(parent.find_child(&tree, 41), None);
}

#[test]
fn add_to_if_needed_is_stable() {
    let mut tree = TagTree::new();
    let a = tree.add_to_if_needed(ROOT_INO, 7);
    let b = tree.add_to_if_needed(ROOT_INO, 7);
    assert_eq!(a, b);
    assert_eq!(tree.counter, 2);
    let c = tree.add_to_if_needed(ROOT_INO, 8);
    assert_ne!(a, c);
    assert_eq!(tree.add_to_if_needed(ROOT_INO, 7), a);
}

#[test]
fn tree_starting_after_skips_taken_numbers() {
    let mut tree = TagTree::starting_after(10);
    assert_eq!(tree.counter, 10);
    assert!(tree.lookup(5).is_none());
    assert_eq!(tree.create_new(), 11);
    assert_eq!(tree.lookup(11).unwrap().collect_tags(&tree), vec![11]);
}

#[test]
fn index_basics() {
    let mut fs = TagFS::new();
    let f = fs.add_file(b"a".to_vec());
    assert_eq!(f, 2);
    let g = fs.add_file(b"b".to_vec());
    assert_eq!(g, 3);
    assert_eq!(fs.get_fnb_by_name(b"b"), Some(3));
    assert_eq!(fs.get_fnm_by_number(2), Some(b"a".to_vec()));
    assert_eq!(fs.get_fnm_by_number(9), None);
    let t = fs.create_tag(b"red".to_vec());
    assert_eq!(fs.get_tnb_by_name(b"red"), Some(t));
    assert_eq!(fs.get_tnb_by_name(b"blue"), None);
    fs.add_file_to(f, t);
    fs.add_file_to(g, t);
    fs.add_file_to(g, 99);
    let all: HashSet<u64> = fs.calculate_intersection(&[]);
    assert_eq!(all, HashSet::from([2, 3]));
    assert_eq!(fs.calculate_intersection(&[t]), HashSet::from([2, 3]));
    fs.remove_file_from(f, t);
    assert_eq!(fs.calculate_intersection(&[t]), HashSet::from([3]));
    assert!(fs.calculate_intersection(&[t, 99]).is_empty());
    fs.omit_file(g);
    assert_eq!(fs.get_fnb_by_name(b"b"), None);
    assert!(fs.calculate_intersection(&[t]).is_empty());
    assert_eq!(fs.calculate_intersection(&[]), HashSet::from([2]));
}

#[test]
fn repopulate_reconciles() {
    let mut fs = TagFS::new();
    fs.repopulate(&vec![b"a".to_vec(), b"b".to_vec(), b".tagfs".to_vec(), b"a".to_vec()]);
    assert_eq!(fs.file_tally, 3);
    assert_eq!(fs.get_fnb_by_name(b".tagfs"), None);
    let t = fs.create_tag(b"red".to_vec());
    let a = fs.get_fnb_by_name(b"a").unwrap();
    let b = fs.get_fnb_by_name(b"b").unwrap();
    fs.add_file_to(a, t);
    fs.add_file_to(b, t);
    fs.repopulate(&vec![b"a".to_vec(), b"c".to_vec()]);
    assert_eq!(fs.get_fnb_by_name(b"a"), Some(a));
    assert_eq!(fs.get_fnb_by_name(b"b"), None);
    assert_eq!(fs.get_fnb_by_name(b"c"), Some(4));
    assert_eq!(fs.calculate_intersection(&[t]), HashSet::from([a]));
}

#[test]
fn lookup_outcomes() {
    let mut fs = TagFS::new();
    fs.repopulate(&vec![b"a".to_vec()]);
    let red = fs.mkdir(b"red").unwrap();
    let a = fs.get_fnb_by_name(b"a").unwrap();
    match fs.lookup(ROOT_INO, b"a") {
        Ok(Entry::File { ino, name }) => {
            assert_eq!(ino, Ino::from_parts(a, ROOT_INO).0);
            assert_eq!(name, b"a".to_vec());
        }
        other => panic!("{:?}", other),
    }
    assert_eq!(fs.lookup(red, b"a").unwrap_err(), FsError::NotFound);
    assert_eq!(fs.lookup(ROOT_INO, b"nothing").unwrap_err(), FsError::NotFound);
    assert_eq!(fs.lookup(Ino::from_parts(a, 1).0, b"a").unwrap_err(), FsError::NotDir);
    assert_eq!(fs.lookup(77, b"a").unwrap_err(), FsError::NotFound);
    match fs.lookup(ROOT_INO, b"red") {
        Ok(Entry::Folder(ino)) => assert_eq!(ino, red),
        other => panic!("{:?}", other),
    }
}

#[test]
fn getattr_and_open() {
    let mut fs = TagFS::new();
    fs.repopulate(&vec![b"a".to_vec()]);
    let a = fs.get_fnb_by_name(b"a").unwrap();
    let ino = Ino::from_parts(a, 5).0;
    match fs.getattr(ino) {
        Ok(Entry::File { ino: i, name }) => {
            assert_eq!(i, ino);
            assert_eq!(name, b"a".to_vec());
        }
        other => panic!("{:?}", other),
    }
    assert!(matches!(fs.getattr(ROOT_INO), Ok(Entry::Folder(1))));
    assert_eq!(fs.getattr(Ino::from_parts(50, 1).0).unwrap_err(), FsError::NotFound);
    assert_eq!(fs.open(ino).unwrap(), b"a".to_vec());
    assert_eq!(fs.open(ROOT_INO).unwrap_err(), FsError::NotFound);
    assert_eq!(fs.open(Ino::from_parts(50, 1).0).unwrap_err(), FsError::NotFound);
    assert_eq!(FileHandle(3), FileHandle(3));
}

#[test]
fn refused_operations() {
    let mut fs = TagFS::new();
    fs.repopulate(&vec![b"a".to_vec()]);
    assert_eq!(fs.mkdir(b".Trash-1000").unwrap_err(), FsError::NotSupported);
    assert_eq!(fs.rename(1, b"a", 1, b"b").unwrap_err(), FsError::NotSupported);
    assert_eq!(fs.rename(1, b"zz", 5, b"zz").unwrap_err(), FsError::NotFound);
    assert_eq!(fs.rename(1, b"a", 5, b"a").unwrap_err(), FsError::NotFound);
    assert_eq!(fs.unlink(1, b"zz").unwrap_err(), FsError::NotFound);
    assert_eq!(fs.unlink(9, b"a").unwrap_err(), FsError::NotFound);
    assert_eq!(fs.readdir(Ino::from_parts(2, 1).0, 0).unwrap_err(), FsError::NotDir);
    assert_eq!(fs.readdir(42, 0).unwrap_err(), FsError::NotFound);
}

#[test]
fn no_space_when_numbers_run_out() {
    let st = PersistentState {
        tag_content: vec![(HALF_MAX, vec![])],
        files: vec![],
        tags: vec![(HALF_MAX, b"last".to_vec())],
        file_tally: 1,
    };
    let mut fs = TagFS::from_state(st).unwrap();
    assert_eq!(fs.tree.counter, HALF_MAX);
    assert_eq!(fs.mkdir(b"more").unwrap_err(), FsError::NoSpace);
    assert_eq!(fs.lookup(ROOT_INO, b"last").unwrap_err(), FsError::NoSpace);
    assert_eq!(fs.readdir(ROOT_INO, 0).unwrap_err(), FsError::NoSpace);
}

#[test]
fn readdir_offsets_skip_entries() {
    let mut fs = TagFS::new();
    fs.repopulate(&vec![b"a".to_vec(), b"b".to_vec()]);
    fs.mkdir(b"red").unwrap();
    let all = fs.readdir(ROOT_INO, 0).unwrap();
    assert_eq!(all.len(), 5);
    assert_eq!(all[0].ino, ROOT_INO);
    assert_eq!(all[1].ino, ROOT_INO);
    let rest = fs.readdir(ROOT_INO, 2).unwrap();
    assert_eq!(rest.len(), 3);
    assert_eq!(rest[0].name, all[2].name);
    assert!(fs.readdir(ROOT_INO, 5).unwrap().is_empty());
    assert!(fs.readdir(ROOT_INO, 500).unwrap().is_empty());
    let red = fs.lookup(ROOT_INO, b"red").unwrap();
    let red = match red {
        Entry::Folder(i) => i,
        _ => panic!(),
    };
    let below = fs.readdir(red, 0).unwrap();
    assert_eq!(below[0].ino, red);
    assert_eq!(below[1].ino, ROOT_INO);
}

#[test]
fn savefile_round_trip() {
    let st = PersistentState {
        tag_content: vec![(2, vec![3, 4]), (5, vec![])],
        files: vec![(3, b"x".to_vec()), (4, b"y".to_vec())],
        tags: vec![(2, b"red".to_vec()), (5, b"blue".to_vec())],
        file_tally: 4,
    };
    let bytes = encode_state(&st);
    assert_eq!(&bytes[0..8], &[2, 0, 0, 0, 0, 0, 0, 0]);
    assert_eq!(&bytes[8..16], &[2, 0, 0, 0, 0, 0, 0, 0]);
    assert_eq!(bytes.len(), 8 + (8 + 8 + 16) + (8 + 8) + 8 + 2 * 17 + 8 + (19 + 20) + 8);
    let back = decode_state(&bytes).unwrap();
    assert_eq!(back.tag_content, st.tag_content);
    assert_eq!(back.files, st.files);
    assert_eq!(back.tags, st.tags);
    assert_eq!(back.file_tally, 4);
    assert_eq!(&bytes[bytes.len() - 8..], &[4, 0, 0, 0, 0, 0, 0, 0]);
}

#[test]
fn savefile_rejects_bad_bytes() {
    assert!(decode_state(&[]).is_none());
    assert!(decode_state(&[1, 2, 3]).is_none());
    let st = PersistentState { tag_content: vec![], files: vec![], tags: vec![], file_tally: 1 };
    let mut bytes = encode_state(&st);
    assert_eq!(bytes.len(), 32);
    assert!(decode_state(&bytes).is_some());
    bytes.push(0);
    assert!(decode_state(&bytes).is_none());
    assert_eq!(TagFS::new_from_save(&bytes).err(), Some(LoadError::Undecodable));
    let bad = PersistentState { tag_content: vec![], files: vec![], tags: vec![], file_tally: 0 };
    assert_eq!(TagFS::new_from_save(&encode_state(&bad)).err(), Some(LoadError::Inconsistent));
    let bad_file = PersistentState {
        tag_content: vec![],
        files: vec![(9, b"x".to_vec())],
        tags: vec![],
        file_tally: 3,
    };
    assert!(TagFS::from_state(bad_file).is_none());
}

#[test]
fn state_of_an_index() {
    let mut fs = TagFS::new();
    fs.repopulate(&vec![b"a".to_vec(), b"b".to_vec()]);
    let t = fs.create_tag(b"red".to_vec());
    let a = fs.get_fnb_by_name(b"a").unwrap();
    fs.add_file_to(a, t);
    let st = fs.to_state();
    assert_eq!(st.tag_content, vec![(t, vec![a])]);
    assert_eq!(st.files.len(), 2);
    assert_eq!(st.tags, vec![(t, b"red".to_vec())]);
    assert_eq!(st.file_tally, 3);
    let back = TagFS::from_state(st).unwrap();
    assert_eq!(back.get_fnb_by_name(b"b"), fs.get_fnb_by_name(b"b"));
    assert_eq!(back.calculate_intersection(&[t]), HashSet::from([a]));
    assert_eq!(back.tree.counter, t);
}

#[test]
fn byte_helpers() {
    assert_eq!(savefile_name_bytes(), b".tagfs".to_vec());
    assert!(bytes_eq(b"abc", b"abc"));
    assert!(!bytes_eq(b"abc", b"abd"));
    assert!(!bytes_eq(b"abc", b"ab"));
}

#[test]
fn listing_is_in_number_order() {
    let mut fs = TagFS::new();
    fs.repopulate(&vec![b"c".to_vec(), b"a".to_vec(), b"b".to_vec()]);
    assert_eq!(fs.mkdir(b"red").unwrap(), 2);
    assert_eq!(fs.mkdir(b"blue").unwrap(), 3);
    assert_eq!(fs.mkdir(b"green").unwrap(), 4);
    let all = fs.readdir(ROOT_INO, 0).unwrap();
    let names: Vec<Vec<u8>> = all.iter().map(|e| e.name.clone()).collect();
    assert_eq!(
        names,
        vec![
            b".".to_vec(),
            b"..".to_vec(),
            b"red".to_vec(),
            b"blue".to_vec(),
            b"green".to_vec(),
            b"c".to_vec(),
            b"a".to_vec(),
            b"b".to_vec(),
        ]
    );
    assert_eq!(all[2].ino, 2);
    assert_eq!(all[3].ino, 3);
    assert_eq!(all[5].ino, Ino::from_parts(2, ROOT_INO).0);
}

#[test]
fn paging_resumes_where_it_stopped() {
    let mut fs = TagFS::new();
    let names: Vec<Vec<u8>> = (0..40u32).map(|i| format!("f{}", i).into_bytes()).collect();
    fs.repopulate(&names);
    for t in 0..10u32 {
        fs.mkdir(format!("t{}", t).as_bytes()).unwrap();
    }
    let full = fs.readdir(ROOT_INO, 0).unwrap();
    assert_eq!(full.len(), 2 + 10 + 40);
    for k in 0..full.len() + 2 {
        let rest = fs.readdir(ROOT_INO, k as u64).unwrap();
        assert_eq!(rest.len(), full.len().saturating_sub(k));
        for (i, e) in rest.iter().enumerate() {
            assert_eq!(e.ino, full[k + i].ino);
            assert_eq!(e.name, full[k + i].name);
            assert_eq!(e.kind, full[k + i].kind);
        }
    }
}

#[test]
fn save_is_deterministic() {
    let mut fs = TagFS::new();
    let names: Vec<Vec<u8>> = (0..30u32).map(|i| format!("n{}", i).into_bytes()).collect();
    fs.repopulate(&names);
    let t = fs.create_tag(b"t".to_vec());
    for f in (2..32u64).rev() {
        fs.add_file_to(f, t);
    }
    let first = fs.save();
    assert_eq!(first, fs.save());
    let st = decode_state(&first).unwrap();
    let numbers: Vec<u64> = st.files.iter().map(|(n, _)| *n).collect();
    assert_eq!(numbers, (2..32u64).collect::<Vec<u64>>());
    assert_eq!(st.tag_content, vec![(t, (2..32u64).collect::<Vec<u64>>())]);
    let again = TagFS::new_from_save(&first).unwrap();
    assert_eq!(again.save(), first);
}

#[test]
fn repopulate_tally_and_idempotence() {
    let mut fs = TagFS::new();
    let names = vec![b"a".to_vec(), b"b".to_vec()];
    fs.repopulate(&names);
    assert_eq!(fs.file_tally, 3);
    let before = fs.save();
    fs.repopulate(&names);
    assert_eq!(fs.file_tally, 3);
    assert_eq!(fs.save(), before);
    fs.repopulate(&vec![b"a".to_vec(), b"c".to_vec(), b"d".to_vec()]);
    assert_eq!(fs.file_tally, 5);
    assert_eq!(fs.get_fnb_by_name(b"c"), Some(4));
    assert_eq!(fs.get_fnb_by_name(b"d"), Some(5));
}

#[test]
fn no_space_only_when_a_directory_is_needed() {
    let st = PersistentState {
        tag_content: vec![(HALF_MAX - 1, vec![])],
        files: vec![],
        tags: vec![(HALF_MAX - 1, b"last".to_vec())],
        file_tally: 1,
    };
    let mut fs = TagFS::from_state(st).unwrap();
    assert_eq!(fs.tree.counter, HALF_MAX - 1);
    assert_eq!(fs.readdir(ROOT_INO, 0).unwrap().len(), 3);
    assert_eq!(fs.tree.counter, HALF_MAX);
    assert_eq!(fs.readdir(ROOT_INO, 0).unwrap().len(), 3);
    assert!(matches!(fs.lookup(ROOT_INO, b"last"), Ok(Entry::Folder(HALF_MAX))));
    assert_eq!(fs.mkdir(b"more").unwrap_err(), FsError::NoSpace);
}
