use freedroid::inodes::{
    begin_open, epoch_seconds, join_path, make_attr, mount_plan, sanitize, DirCache, InodeTable, OpenFiles, OpenStep,
    CACHE_TTL_NANOS, ROOT_INO,
};
use freedroid::files::DirEntry;
use freedroid::local::{arrange_local_entries, locations_from, trash_failure, trash_script, LocalEntry};
use freedroid::mtp::{
    begin_pull_search, entry_line, first_pull_candidate, pull_search_step, PullSearch, is_folder_type, listing_parent, no_pull_file_line, probe_folders, pull_done_line,
    pull_failed_line, pull_test_line, root_report, sort_mtp_entries, storage_count_line, storage_label, Entry,
};
use freedroid::error::Error;

fn local(name: &str, is_dir: bool) -> LocalEntry {
    LocalEntry { name: name.to_string(), path: format!("/h/{name}"), size: 0, mtime: 0, is_dir, is_symlink: false }
}

#[test]
fn arranges_local_listing() {
    let r = arrange_local_entries(vec![local("b.txt", false), local(".DS_Store", false), local("Music", true), local("A.txt", false), local(".git", true)]);
    let names: Vec<&str> = r.iter().map(|e| e.name.as_str()).collect();
    assert_eq!(names, vec!["Music", "A.txt", "b.txt"]);
}

#[test]
fn lists_locations() {
    let l = locations_from("/Users/me", vec!["usb".to_string(), ".hidden".to_string(), "Backup".to_string()]);
    let v: Vec<(&str, &str)> = l.iter().map(|x| (x.label.as_str(), x.path.as_str())).collect();
    assert_eq!(v, vec![("Home", "/Users/me"), ("Computer", "/"), ("Backup", "/Volumes/Backup"), ("usb", "/Volumes/usb")]);
}

#[test]
fn trash_script_escapes() {
    assert_eq!(trash_script("/a \"b\"\\c"), "tell application \"Finder\" to delete POSIX file \"/a \\\"b\\\"\\\\c\"");
    match trash_failure("/x") {
        Error::Other(m) => assert_eq!(m, "could not move /x to Trash"),
        _ => panic!(),
    }
}

#[test]
fn mtp_helpers() {
    assert_eq!(storage_label("", 65537), "Storage 65537");
    assert_eq!(storage_label("", 0), "Storage 0");
    assert_eq!(storage_label("Internal shared storage", 1), "Internal shared storage");
    assert_eq!(listing_parent(0), 0xffff_ffff);
    assert_eq!(listing_parent(12), 12);
    assert!(is_folder_type(0));
    assert!(!is_folder_type(3));
    let e = |id: u32, name: &str, is_dir: bool| Entry { id, name: name.to_string(), size: 0, mtime: 0, is_dir };
    let s = sort_mtp_entries(vec![e(1, "z", false), e(2, "DCIM", true), e(3, "a", false), e(4, "Alarms", true)]);
    let ids: Vec<u32> = s.iter().map(|x| x.id).collect();
    assert_eq!(ids, vec![4, 2, 3, 1]);
}

fn dir_entry(path: &str, is_dir: bool, size: u64) -> DirEntry {
    DirEntry { name: String::new(), path: path.to_string(), size, mtime: 7, is_dir, is_symlink: false }
}

#[test]
fn inode_table_interns_and_lists() {
    let mut t = InodeTable::new("/sdcard", 100);
    assert_eq!(t.len(), 1);
    let kids = t.intern_listing(&vec![dir_entry("/sdcard/DCIM", true, 0), dir_entry("/sdcard/a.txt", false, 10)]);
    assert_eq!(kids, vec![2, 3]);
    let again = t.intern_listing(&vec![dir_entry("/sdcard/a.txt", false, 20)]);
    assert_eq!(again, vec![3]);
    assert_eq!(t.len(), 3);
    assert_eq!(t.info(3), Some((false, 20, 7)));
    assert_eq!(t.lookup_path("/sdcard/DCIM"), Some(2));
    assert_eq!(t.child_path(ROOT_INO, "new").unwrap(), "/sdcard/new");
    assert_eq!(t.parent_ino(3), Some(1));
    let listed = t.dir_entries(1, &kids);
    let names: Vec<(u64, bool, &str)> = listed.iter().map(|c| (c.ino, c.is_dir, c.name.as_str())).collect();
    assert_eq!(names, vec![(1, true, "."), (1, true, ".."), (2, true, "DCIM"), (3, false, "a.txt")]);
    assert_eq!(t.find_child(&kids, "a.txt"), Some(3));
    assert_eq!(t.find_child(&kids, "nope"), None);
    t.forget_path("/sdcard/a.txt");
    assert_eq!(t.lookup_path("/sdcard/a.txt"), None);
    let fresh = t.intern("/sdcard/a.txt".to_string(), false, 0, 1);
    assert_eq!(fresh, 4);
    t.grow_to(4, 50);
    t.grow_to(4, 10);
    assert_eq!(t.info(4), Some((false, 50, 1)));
    t.set_size(4, 5);
    assert_eq!(t.info(4), Some((false, 5, 1)));
    assert_eq!(t.info(9), None);
}

#[test]
fn attributes_round_blocks_up() {
    let a = make_attr(5, false, 513, 9, 501, 20);
    assert_eq!((a.blocks, a.perm, a.nlink, a.blksize), (2, 0o644, 1, 512));
    let d = make_attr(1, true, 0, 9, 501, 20);
    assert_eq!((d.blocks, d.perm, d.nlink), (0, 0o755, 2));
    assert_eq!(make_attr(2, false, 512, 0, 0, 0).blocks, 1);
}

#[test]
fn open_files_count_and_push_on_last_release() {
    let mut o = OpenFiles::new();
    assert!(!o.reopen(3));
    o.opened(3, false);
    assert!(o.reopen(3));
    assert!(o.mark_dirty(3));
    assert!(!o.release(3));
    assert!(o.is_open(3));
    assert!(o.release(3));
    assert!(!o.is_open(3));
    assert!(!o.release(3));
    o.opened(4, true);
    assert!(o.release(4));
}

#[test]
fn mount_helpers() {
    assert_eq!(sanitize("192.168.1.5:5555/x"), "192.168.1.5_5555_x");
    assert_eq!(epoch_seconds(-3), 0);
    assert_eq!(epoch_seconds(42), 42);
}

#[test]
fn open_decisions() {
    let mut t = InodeTable::new("/sdcard", 0);
    let kids = t.intern_listing(&vec![dir_entry("/sdcard/DCIM", true, 0), dir_entry("/sdcard/a.txt", false, 3)]);
    assert_eq!(kids, vec![2, 3]);
    let mut o = OpenFiles::new();
    assert!(matches!(begin_open(&t, &mut o, 9), OpenStep::NotFound));
    assert!(matches!(begin_open(&t, &mut o, 0), OpenStep::NotFound));
    assert!(matches!(begin_open(&t, &mut o, 2), OpenStep::IsDirectory));
    assert!(matches!(begin_open(&t, &mut o, 3), OpenStep::Fetch));
    assert!(!o.is_open(3));
    o.opened(3, false);
    assert!(matches!(begin_open(&t, &mut o, 3), OpenStep::Reopened));
    assert!(!o.release(3));
    assert!(!o.release(3));
    assert!(!o.is_open(3));
}

#[test]
fn dir_cache_expires_and_invalidates() {
    let mut c = DirCache::new();
    assert_eq!(c.fresh(1, 0), None);
    c.store(1, 1_000, vec![2, 3]);
    assert_eq!(c.fresh(1, 1_000), Some(vec![2, 3]));
    assert_eq!(c.fresh(1, 1_000 + CACHE_TTL_NANOS - 1), Some(vec![2, 3]));
    assert_eq!(c.fresh(1, 1_000 + CACHE_TTL_NANOS), None);
    assert_eq!(c.fresh(1, 10), Some(vec![2, 3]));
    c.invalidate(1);
    assert_eq!(c.fresh(1, 1_000), None);
}

#[test]
fn dir_entries_from_offset() {
    let mut t = InodeTable::new("/sdcard", 0);
    let kids = t.intern_listing(&vec![dir_entry("/sdcard/DCIM", true, 0), dir_entry("/sdcard/a.txt", false, 3)]);
    let all: Vec<(i64, u64, String)> =
        t.dir_entries_from(1, &kids, 0).into_iter().map(|(o, c)| (o, c.ino, c.name)).collect();
    assert_eq!(
        all,
        vec![(1, 1, ".".to_string()), (2, 1, "..".to_string()), (3, 2, "DCIM".to_string()), (4, 3, "a.txt".to_string())]
    );
    let rest: Vec<(i64, String)> = t.dir_entries_from(1, &kids, 3).into_iter().map(|(o, c)| (o, c.name)).collect();
    assert_eq!(rest, vec![(4, "a.txt".to_string())]);
    assert!(t.dir_entries_from(1, &kids, 4).is_empty());
    assert!(t.dir_entries_from(1, &kids, 99).is_empty());
    assert!(t.dir_entries_from(1, &kids, -1).is_empty());
}

#[test]
fn joins_paths() {
    assert_eq!(join_path("/Users/me", "Freedroid"), "/Users/me/Freedroid");
    assert_eq!(join_path("/a/", "b"), "/a/b");
    assert_eq!(join_path("", "b"), "b");
}

#[test]
fn plans_a_mount() {
    let p = mount_plan(false, true, "/Users/me", "Pixel 7", "192.168.1.5:5555").ok().unwrap();
    assert_eq!(p.mountpoint, "/Users/me/Freedroid/Pixel 7");
    assert_eq!(p.cache_dir, "/Users/me/Library/Caches/app.freedroid.desktop/192.168.1.5_5555");
    assert_eq!(p.volname_option, "volname=Pixel 7");
    match mount_plan(true, true, "/Users/me", "x", "y") {
        Err(Error::Other(m)) => assert_eq!(m, "a device is already mounted"),
        _ => panic!(),
    }
    match mount_plan(false, false, "/Users/me", "x", "y") {
        Err(Error::Other(m)) => assert_eq!(m, "fuse-t is not installed — see https://www.fuse-t.org"),
        _ => panic!(),
    }
}

fn mtp(id: u32, name: &str, size: u64, is_dir: bool) -> Entry {
    Entry { id, name: name.to_string(), size, mtime: 0, is_dir }
}

#[test]
fn probe_report_lines() {
    assert_eq!(storage_count_line(2), "Found 2 storage(s):\n");
    assert_eq!(entry_line(&mtp(1, "DCIM", 0, true)), "  [DIR ]            0  DCIM\n");
    assert_eq!(entry_line(&mtp(2, "a.jpg", 1234567, false)), "  [file]      1234567  a.jpg\n");
    assert_eq!(entry_line(&mtp(3, "big", 1_234_567_890_123, false)), "  [file] 1234567890123  big\n");
    let r = root_report("Internal shared storage", &vec![mtp(1, "DCIM", 0, true), mtp(2, "a.jpg", 5, false)]);
    assert_eq!(
        r,
        "\nRoot of \"Internal shared storage\" (2 entries):\n  [DIR ]            0  DCIM\n  [file]            5  a.jpg\n"
    );
    let many: Vec<Entry> = (0..45).map(|i| mtp(i, "f", 1, false)).collect();
    let r = root_report("S", &many);
    assert!(r.starts_with("\nRoot of \"S\" (45 entries):\n"));
    assert_eq!(r.lines().count(), 2 + 40);
    assert_eq!(pull_test_line("a.jpg", 5), "\nPull test: \"a.jpg\" (5 bytes)…\n");
    assert_eq!(pull_done_line(5, "/tmp/x.bin", 5), "  downloaded 5 bytes -> /tmp/x.bin (SIZE OK)\n");
    assert_eq!(pull_done_line(4, "/tmp/x.bin", 5), "  downloaded 4 bytes -> /tmp/x.bin (size mismatch)\n");
    assert_eq!(pull_failed_line("MTP download failed"), "  pull failed: MTP download failed\n");
    assert_eq!(no_pull_file_line(), "\n(no files found to test a pull)\n");
}

#[test]
fn probe_picks_a_file() {
    let root = vec![mtp(1, "A", 0, true), mtp(2, "e", 0, false), mtp(3, "f", 9, false)];
    assert_eq!(first_pull_candidate(&root, false), Some(1));
    assert_eq!(first_pull_candidate(&root, true), Some(2));
    assert_eq!(first_pull_candidate(&vec![mtp(1, "A", 0, true)], false), None);
    let dirs: Vec<Entry> = (0..12).map(|i| mtp(i, "d", 0, i % 3 != 1)).collect();
    assert_eq!(probe_folders(&dirs), vec![0, 2, 3, 5, 6, 8]);
    assert_eq!(probe_folders(&root), vec![1]);
}

#[test]
fn probe_searches_folders_for_a_file() {
    let root = vec![mtp(1, "A", 0, true), mtp(2, "e", 0, false)];
    match begin_pull_search(&root).0 {
        PullSearch::Pull { id, name, size } => assert_eq!((id, name.as_str(), size), (2, "e", 0)),
        _ => panic!(),
    }
    let root = vec![mtp(1, "A", 0, true), mtp(2, "B", 0, true), mtp(3, "C", 0, true)];
    let (step, mut st) = begin_pull_search(&root);
    assert!(matches!(step, PullSearch::List(1)));
    assert!(matches!(pull_search_step(&mut st, None), PullSearch::List(2)));
    assert!(matches!(pull_search_step(&mut st, Some(vec![mtp(7, "empty", 0, false)])), PullSearch::List(3)));
    match pull_search_step(&mut st, Some(vec![mtp(8, "z", 0, false), mtp(9, "x.jpg", 12, false)])) {
        PullSearch::Pull { id, name, size } => assert_eq!((id, name.as_str(), size), (9, "x.jpg", 12)),
        _ => panic!(),
    }
    let (_, mut st) = begin_pull_search(&vec![mtp(1, "A", 0, true)]);
    assert!(matches!(pull_search_step(&mut st, Some(vec![])), PullSearch::NoFile));
    assert!(matches!(begin_pull_search(&vec![]).0, PullSearch::NoFile));
}
