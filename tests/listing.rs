use rlist_vfs::dir::CombinableDir;
use rlist_vfs::file::StaticCombinableFile;
use rlist_vfs::hidden::{hide_url_for_dir, hide_url_for_file, UrlHiddenEntry};
use rlist_vfs::index::{IndexedVfs, TryPathResult};
use rlist_vfs::meta::{StaticDownloadLinkFile, VfsBasicMeta, VfsDirMeta};
use rlist_vfs::rcu::ReadCopyUpdate;
use rlist_vfs::wheel::{build_snapshot, StopSignal, Wheel};

// 2023-01-14 13:20:00 UTC, in milliseconds since the Unix epoch.
const JAN_14: u64 = 1673702400 * 1000;

fn new_file(name: &str) -> StaticCombinableFile {
    StaticCombinableFile {
        name: name.to_string(),
        size: 1024,
        last_modified: JAN_14,
        links: vec![
            format!("https://example.com/{}", name),
            format!("https://example.org/{}", name),
        ],
    }
}

fn sample_tree() -> CombinableDir {
    let dir1 = CombinableDir::new("dir1".to_string(), vec![new_file("test1")], vec![]);
    CombinableDir::new("dir2".to_string(), vec![new_file("test2")], vec![dir1])
}

#[test]
fn test_file_without_link() {
    let file = StaticCombinableFile {
        name: "test".to_string(),
        size: 1024,
        last_modified: 1,
        links: vec!["https://example.com".to_string()],
    };
    let without_link = hide_url_for_file(&file);
    assert_eq!(without_link.name, "test");
    assert_eq!(without_link.size, 1024);
}

#[test]
fn test_dir_without_link() {
    let file = |name: &str, link: &str| StaticCombinableFile {
        name: name.to_string(),
        size: 1024,
        last_modified: 1,
        links: vec![link.to_string()],
    };
    let file1 = file("test1", "https://example.com/1");
    let file2 = file("test2", "https://example.com/2");
    let file3 = file("test3", "https://example.com/3");
    let dir1 = CombinableDir::new("dir1".to_string(), vec![file1.clone(), file2.clone()], vec![]);
    let dir2 = CombinableDir::new("dir2".to_string(), vec![file3.clone()], vec![]);
    let dir3 = CombinableDir::new("dir3".to_string(), vec![], vec![dir1.clone(), dir2.clone()]);

    let without_link = hide_url_for_dir(&dir3);
    assert_eq!(without_link.name, "dir3");
    assert_eq!(without_link.size, 1024 * 3);
    assert_eq!(without_link.files.len(), 0);
    assert_eq!(without_link.subdirectories.len(), 2);

    assert_eq!(without_link.subdirectories.len(), 2);
    let dir1 = &without_link.subdirectories[0];
    assert_eq!(dir1.name, "dir1");
    assert_eq!(dir1.size, 1024 * 2);
    assert_eq!(dir1.files.len(), 2);
    assert_eq!(dir1.subdirectories.len(), 0);
    let file1 = &dir1.files[0];
    assert_eq!(file1.name, "test1");
    assert_eq!(file1.size, 1024);
    let file2 = &dir1.files[1];
    assert_eq!(file2.name, "test2");
    assert_eq!(file2.size, 1024);

    let dir2 = &without_link.subdirectories[1];
    assert_eq!(dir2.name, "dir2");
    assert_eq!(dir2.size, 1024);
    assert_eq!(dir2.files.len(), 1);
    assert_eq!(dir2.subdirectories.len(), 0);
    let file3 = &dir2.files[0];
    assert_eq!(file3.name, "test3");
}

#[test]
fn file_listing_json() {
    let json = hide_url_for_file(&new_file("test")).to_json();
    assert_eq!(json, r#"{"name":"test","size":1024,"last_modified":1673702400000}"#);
}

#[test]
fn tree_listing_json() {
    let json = hide_url_for_dir(&sample_tree()).to_json();
    assert_eq!(
        json,
        r#"{"name":"dir2","size":2048,"last_modified":1673702400000,"files":[{"name":"test2","size":1024,"last_modified":1673702400000}],"subdirectories":[{"name":"dir1","size":1024,"last_modified":1673702400000,"files":[{"name":"test1","size":1024,"last_modified":1673702400000}],"subdirectories":[]}]}"#
    );
}

#[test]
fn listing_json_separates_many_entries() {
    let a = CombinableDir::new("a".to_string(), vec![], vec![]);
    let b = CombinableDir::new("b".to_string(), vec![], vec![]);
    let root = CombinableDir::new(
        "r".to_string(),
        vec![
            StaticCombinableFile::new("x".to_string(), 0, 0, vec!["l".to_string()]),
            StaticCombinableFile::new("y".to_string(), 10, 9, vec!["l".to_string()]),
        ],
        vec![a, b],
    );
    assert_eq!(
        hide_url_for_dir(&root).to_json(),
        r#"{"name":"r","size":10,"last_modified":9,"files":[{"name":"x","size":0,"last_modified":0},{"name":"y","size":10,"last_modified":9}],"subdirectories":[{"name":"a","size":0,"last_modified":0,"files":[],"subdirectories":[]},{"name":"b","size":0,"last_modified":0,"files":[],"subdirectories":[]}]}"#
    );
}

#[test]
fn listing_json_escapes_names() {
    let file = StaticCombinableFile::new("a\"b\\c".to_string(), 1, 2, vec!["l".to_string()]);
    assert_eq!(
        hide_url_for_file(&file).to_json(),
        r#"{"name":"a\"b\\c","size":1,"last_modified":2}"#
    );
}

#[test]
fn listing_holds_no_link() {
    let tree = sample_tree();
    let json = hide_url_for_dir(&tree).to_json();
    for link in [
        "https://example.com/test1",
        "https://example.org/test1",
        "https://example.com/test2",
        "https://example.org/test2",
        "example.com",
        "example.org",
    ] {
        assert!(!json.contains(link));
    }
}

#[test]
fn index_finds_every_entry() {
    let index = IndexedVfs::new(sample_tree());
    match index.try_path("") {
        TryPathResult::Dir(d) => assert_eq!(d.name(), "dir2"),
        _ => panic!("root missing"),
    }
    match index.try_path("/test2") {
        TryPathResult::File(f) => assert_eq!(f.links, vec![
            "https://example.com/test2".to_string(),
            "https://example.org/test2".to_string()
        ]),
        _ => panic!("file missing"),
    }
    match index.try_path("/dir1") {
        TryPathResult::Dir(d) => {
            assert_eq!(d.name(), "dir1");
            assert_eq!(d.files().len(), 1);
        },
        _ => panic!("directory missing"),
    }
    match index.try_path("/dir1/test1") {
        TryPathResult::File(f) => assert_eq!(f.name(), "test1"),
        _ => panic!("nested file missing"),
    }
}

#[test]
fn index_misses_unknown_paths() {
    let index = IndexedVfs::new(sample_tree());
    for path in ["/nope", "dir1", "/dir1/", "/dir1/test2", "dir1/test1", "/dir2"] {
        assert!(matches!(index.try_path(path), TryPathResult::NotFound));
    }
}

#[test]
fn compress_path_maps_files() {
    let map = sample_tree().compress_path();
    assert_eq!(map.get("test2").map(|f| f.name.clone()), Some("test2".to_string()));
    assert_eq!(map.get("dir1/test1").map(|f| f.name.clone()), Some("test1".to_string()));
    assert!(map.get("dir1").is_none());
    assert!(map.get("/dir1/test1").is_none());
}

#[test]
fn list_gives_directories_then_files() {
    let tree = sample_tree();
    let names: Vec<String> = tree.list().iter().map(|e| e.name().to_string()).collect();
    assert_eq!(names, vec!["dir1".to_string(), "test2".to_string()]);
}

#[test]
fn test_read_copy_update_1() {
    let rcu = ReadCopyUpdate::new(1);
    let arc = rcu.read();
    assert_eq!(*arc, 1);
    rcu.update(2);
    let arc = rcu.read();
    assert_eq!(*arc, 2);
}

#[test]
fn reader_keeps_its_snapshot() {
    let rcu = ReadCopyUpdate::new(vec![1, 2, 3]);
    let held = rcu.read();
    rcu.update(vec![4]);
    assert_eq!(*held, vec![1, 2, 3]);
    assert_eq!(*rcu.read(), vec![4]);
    assert_eq!(*held, vec![1, 2, 3]);
}

#[test]
fn snapshot_skips_failed_drivers() {
    let fetched = vec![Err("down".to_string()), Ok(sample_tree())];
    let (index, listing) = build_snapshot(fetched).unwrap();
    assert!(matches!(index.try_path("/dir1/test1"), TryPathResult::File(_)));
    assert_eq!(listing, hide_url_for_dir(&sample_tree()).to_json());
}

#[test]
fn snapshot_is_skipped_when_every_driver_fails() {
    assert!(build_snapshot(vec![Err("a".to_string()), Err("b".to_string())]).is_none());
    assert!(build_snapshot(vec![]).is_none());
}

#[test]
fn snapshot_is_skipped_when_sizes_overflow() {
    let big = |name: &str| {
        CombinableDir::new(
            "root".to_string(),
            vec![StaticCombinableFile::new(name.to_string(), u64::MAX, 0, vec!["l".to_string()])],
            vec![],
        )
    };
    assert!(build_snapshot(vec![Ok(big("a")), Ok(big("b"))]).is_none());
}

#[test]
fn wheel_keeps_previous_snapshot_when_every_driver_fails() {
    let wheel = Wheel::new(vec![Ok(sample_tree())]).unwrap();
    let before = wheel.get_hidden_view();
    assert!(!wheel.refresh(vec![Err("down".to_string())]));
    assert_eq!(*wheel.get_hidden_view(), *before);
    let other = CombinableDir::new("dir2".to_string(), vec![new_file("fresh")], vec![]);
    assert!(wheel.refresh(vec![Ok(other)]));
    assert!(wheel.get_hidden_view().contains("fresh"));
    assert!(matches!(wheel.get_path_map().try_path("/fresh"), TryPathResult::File(_)));
    assert!(Wheel::new(vec![Err("down".to_string())]).is_none());
}

#[test]
fn stop_signal_stops() {
    let mut signal = StopSignal::new();
    assert!(!signal.is_stop());
    signal.stop();
    assert!(signal.is_stop());
}

#[test]
fn listing_entries_give_directories_then_files() {
    let listing = hide_url_for_dir(&sample_tree());
    let entries = listing.list();
    assert_eq!(entries.len(), 2);
    match &entries[0] {
        UrlHiddenEntry::Dir(d) => assert_eq!(d.name, "dir1"),
        UrlHiddenEntry::File(_) => panic!("directory expected first"),
    }
    match &entries[1] {
        UrlHiddenEntry::File(f) => assert_eq!((f.name.as_str(), f.size), ("test2", 1024)),
        UrlHiddenEntry::Dir(_) => panic!("file expected last"),
    }
}
