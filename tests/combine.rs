use rlist_vfs::dir::{combine_vfs_dirs, CombinableDir};
use rlist_vfs::file::StaticCombinableFile;
use rlist_vfs::meta::{Combinable, StaticDownloadLinkFile, VfsBasicMeta, VfsDirMeta, VfsFileMeta};

// 2023-01-01 00:00:00 UTC, in milliseconds since the Unix epoch.
const JAN_2023: u64 = 1672531200 * 1000;

fn generate_file(name: &str, size: u64, download_links_prefix: Vec<&str>) -> StaticCombinableFile {
    let links = download_links_prefix
        .iter()
        .map(|x| format!("{}/{}", x, name))
        .collect();
    StaticCombinableFile {
        name: name.to_string(),
        size,
        last_modified: JAN_2023,
        links,
    }
}

#[test]
fn test_dir_new() {
    let file1 = generate_file("file1", 1024, vec!["https://example.com"]);
    let file2 = generate_file("file2", 2048, vec!["https://example.com"]);

    let dir1 = CombinableDir::new("dir1".to_string(), vec![file1, file2], vec![]);

    assert_eq!(dir1.name(), "dir1");
    assert_eq!(dir1.size(), 1024 + 2048);
    assert_eq!(dir1.last_modified(), JAN_2023);
    assert_eq!(dir1.files().len(), 2);
    assert_eq!(dir1.subdirectories().len(), 0);
}

#[test]
fn test_dir_combine_1() {
    let file1 = generate_file("test_file", 2048, vec!["https://example.com"]);
    let file2 = generate_file("test_file", 2048, vec!["https://example.org", "https://example.net"]);

    let dir1 = CombinableDir::new("dir1".to_string(), vec![file1], vec![]);
    let dir2 = CombinableDir::new("dir1".to_string(), vec![file2], vec![]);

    let combined = CombinableDir::combine(vec![dir1, dir2]);

    assert_eq!(combined.name(), "dir1");
    assert_eq!(combined.size(), 2048);
    assert_eq!(combined.last_modified(), JAN_2023);
    assert_eq!(combined.files().len(), 1);

    let file = combined.files()[0].clone();
    assert_eq!(file.name(), "test_file");
    assert_eq!(file.size(), 2048);
    assert_eq!(file.last_modified(), JAN_2023);
    assert_eq!(
        file.links(),
        &vec![
            "https://example.com/test_file",
            "https://example.org/test_file",
            "https://example.net/test_file"
        ]
    );
}

#[test]
fn test_dir_combine_2() {
    let file1 = generate_file("test_file1", 2048, vec!["https://example.com"]);
    let file2 = generate_file("test_file2", 4096, vec!["https://example.com", "https://example.org"]);

    let dir1 = CombinableDir::new("dir1".to_string(), vec![file1], vec![]);
    let dir2 = CombinableDir::new("dir1".to_string(), vec![file2], vec![]);

    let combined = CombinableDir::combine(vec![dir1, dir2]);

    assert_eq!(combined.name(), "dir1");
    assert_eq!(combined.size(), 2048 + 4096);
    assert_eq!(combined.last_modified(), JAN_2023);
    assert_eq!(combined.files().len(), 2);

    let file1 = combined.files()[0].clone();
    assert_eq!(file1.name(), "test_file1");
    assert_eq!(file1.size(), 2048);
    assert_eq!(file1.links(), &vec!["https://example.com/test_file1"]);

    let file2 = combined.files()[1].clone();
    assert_eq!(file2.name(), "test_file2");
    assert_eq!(file2.size(), 4096);
    assert_eq!(
        file2.links(),
        &vec!["https://example.com/test_file2", "https://example.org/test_file2"]
    );
}

#[test]
fn test_dir_combine_3() {
    let file1 = generate_file("file1", 2048, vec!["https://example.com"]);
    let file2 = generate_file("file2", 4096, vec!["https://example.com"]);
    let file3 = generate_file("file3", 8192, vec!["https://example.com"]);
    let file4 = generate_file("file4", 16384, vec!["https://example.com"]);

    let dir2 = CombinableDir::new("dir2".to_string(), vec![file2], vec![]);
    let dir4 = CombinableDir::new("dir4".to_string(), vec![file4], vec![]);

    let dir1 = CombinableDir::new("dir1".to_string(), vec![file1], vec![dir2]);
    let dir3 = CombinableDir::new("dir1".to_string(), vec![file3], vec![dir4]);

    assert_eq!(dir1.size(), 2048 + 4096);
    assert_eq!(dir3.size(), 8192 + 16384);

    let combined = CombinableDir::combine(vec![dir1, dir3]);
    assert_eq!(combined.name(), "dir1");
    assert_eq!(combined.size(), 2048 + 4096 + 8192 + 16384);
    assert_eq!(combined.last_modified(), JAN_2023);
    assert_eq!(combined.files().len(), 2);
    assert_eq!(combined.subdirectories().len(), 2);

    let mut file_names_in_combined = combined.files().iter().map(|x| x.name()).collect::<Vec<_>>();
    file_names_in_combined.sort();
    assert_eq!(file_names_in_combined, vec!["file1", "file3"]);

    let mut subdirectory_names_in_combined =
        combined.subdirectories().iter().map(|x| x.name()).collect::<Vec<_>>();
    subdirectory_names_in_combined.sort();
    assert_eq!(subdirectory_names_in_combined, vec!["dir2", "dir4"]);

    let file2 = combined.subdirectories().iter().find(|x| x.name() == "dir2").unwrap().files()[0].clone();
    assert_eq!(file2.name(), "file2");

    let file4 = combined.subdirectories().iter().find(|x| x.name() == "dir4").unwrap().files()[0].clone();
    assert_eq!(file4.name(), "file4");
}

#[test]
fn test_mount() {
    let file1 = generate_file("file1", 2048, vec!["https://example.com"]);
    let dir = CombinableDir::new("dir".to_string(), vec![file1], vec![]);

    let path = vec!["root".to_owned(), "home".to_owned(), "user".to_owned()];

    let mounted = dir.mount(path);
    let mut dir_ptr = &mounted;
    assert_eq!(dir_ptr.name(), "root");
    dir_ptr = dir_ptr.subdirectories().iter().find(|x| x.name() == "home").unwrap();
    assert_eq!(dir_ptr.name(), "home");
    dir_ptr = dir_ptr.subdirectories().iter().find(|x| x.name() == "user").unwrap();
    assert_eq!(dir_ptr.name(), "user");
    assert_eq!(dir_ptr.subdirectories().len(), 1);
    dir_ptr = dir_ptr.subdirectories().iter().find(|x| x.name() == "dir").unwrap();
    assert_eq!(dir_ptr.name(), "dir");
    assert_eq!(dir_ptr.files().len(), 1);
    assert_eq!(dir_ptr.files()[0].name(), "file1");

    assert_eq!(mounted.size(), 2048);
}

#[test]
fn test_static_combinable_file() {
    let time = JAN_2023;
    let file = StaticCombinableFile {
        name: "test".to_string(),
        size: 1024,
        last_modified: time,
        links: vec!["https://example.com".to_string(), "https://example.org".to_string()],
    };
    assert_eq!(file.name(), "test");
    assert_eq!(file.size(), 1024);
    assert_eq!(file.last_modified(), time);
    assert_eq!(
        file.links(),
        &vec!["https://example.com".to_string(), "https://example.org".to_string()]
    );
}

#[test]
fn combine_files() {
    let time = JAN_2023;
    let name = "test".to_string();
    let size = 1024;

    let file1 = StaticCombinableFile {
        name: name.clone(),
        size,
        last_modified: time,
        links: vec!["https://example.com".to_string()],
    };
    let file2 = StaticCombinableFile {
        name: name.clone(),
        size,
        last_modified: time,
        links: vec!["https://example.org".to_string()],
    };
    let file3 = StaticCombinableFile {
        name: name.clone(),
        size,
        last_modified: time,
        links: vec!["https://example.net".to_string()],
    };

    let combined = StaticCombinableFile::combine(vec![file1, file2, file3]);
    assert_eq!(combined.name(), "test");
    assert_eq!(combined.size(), 1024);
    assert_eq!(combined.last_modified(), time);
    assert_eq!(
        combined.links(),
        &vec![
            "https://example.com".to_string(),
            "https://example.org".to_string(),
            "https://example.net".to_string()
        ]
    );
}

#[test]
fn merging_same_named_file_appends_links_in_order() {
    let a = StaticCombinableFile::new("test_file".to_string(), 2048, 5, vec!["A".to_string()]);
    let b = StaticCombinableFile::new(
        "test_file".to_string(),
        2048,
        7,
        vec!["B".to_string(), "C".to_string()],
    );
    let d1 = CombinableDir::new("dir1".to_string(), vec![a], vec![]);
    let d2 = CombinableDir::new("dir1".to_string(), vec![b], vec![]);
    let merged = combine_vfs_dirs(vec![d1, d2]);
    assert_eq!(merged.name(), "dir1");
    assert_eq!(merged.files().len(), 1);
    let f = &merged.files()[0];
    assert_eq!(f.name(), "test_file");
    assert_eq!(f.links(), &vec!["A".to_string(), "B".to_string(), "C".to_string()]);
    // Duplicate sizes are folded by taking the largest.
    assert_eq!(f.size(), 2048);
    assert_eq!(f.last_modified(), 7);
    assert_eq!(merged.size(), 2048);
    assert_eq!(merged.last_modified(), 7);
}

#[test]
fn merging_different_names_keeps_both_files() {
    let f1 = StaticCombinableFile::new("file1".to_string(), 100, 1, vec!["x/1".to_string()]);
    let f2 = StaticCombinableFile::new("file2".to_string(), 250, 2, vec!["y/2".to_string()]);
    let d1 = CombinableDir::new("dir1".to_string(), vec![f1], vec![]);
    let d2 = CombinableDir::new("dir1".to_string(), vec![f2], vec![]);
    let merged = combine_vfs_dirs(vec![d1, d2]);
    assert_eq!(merged.files().len(), 2);
    assert_eq!(merged.files()[0].name(), "file1");
    assert_eq!(merged.files()[0].size(), 100);
    assert_eq!(merged.files()[0].links(), &vec!["x/1".to_string()]);
    assert_eq!(merged.files()[1].name(), "file2");
    assert_eq!(merged.files()[1].size(), 250);
    assert_eq!(merged.files()[1].links(), &vec!["y/2".to_string()]);
    assert_eq!(merged.size(), 350);
}

#[test]
fn merging_one_tree_gives_it_back() {
    let sub = CombinableDir::new(
        "sub".to_string(),
        vec![StaticCombinableFile::new("a".to_string(), 3, 30, vec!["l/a".to_string()])],
        vec![],
    );
    let root = CombinableDir::new(
        "root".to_string(),
        vec![StaticCombinableFile::new("b".to_string(), 4, 40, vec!["l/b".to_string(), "m/b".to_string()])],
        vec![sub],
    );
    let merged = combine_vfs_dirs(vec![root.clone()]);
    assert_eq!(merged.name(), root.name());
    assert_eq!(merged.size(), root.size());
    assert_eq!(merged.last_modified(), root.last_modified());
    assert_eq!(merged.files().len(), 1);
    assert_eq!(merged.files()[0].links(), root.files()[0].links());
    assert_eq!(merged.subdirectories().len(), 1);
    assert_eq!(merged.subdirectories()[0].files()[0].links(), &vec!["l/a".to_string()]);
}

#[test]
fn merged_size_and_time_cover_every_depth() {
    // Overlapping subdirectory "docs" on both sides, with one shared file.
    let left = CombinableDir::new(
        "root".to_string(),
        vec![StaticCombinableFile::new("top".to_string(), 10, 100, vec!["l/top".to_string()])],
        vec![CombinableDir::new(
            "docs".to_string(),
            vec![
                StaticCombinableFile::new("shared".to_string(), 50, 500, vec!["l/shared".to_string()]),
                StaticCombinableFile::new("only_left".to_string(), 7, 70, vec!["l/ol".to_string()]),
            ],
            vec![],
        )],
    );
    let right = CombinableDir::new(
        "root".to_string(),
        vec![],
        vec![
            CombinableDir::new(
                "docs".to_string(),
                vec![StaticCombinableFile::new("shared".to_string(), 60, 900, vec!["r/shared".to_string()])],
                vec![],
            ),
            CombinableDir::new(
                "pics".to_string(),
                vec![StaticCombinableFile::new("p".to_string(), 5, 50, vec!["r/p".to_string()])],
                vec![],
            ),
        ],
    );
    let merged = combine_vfs_dirs(vec![left, right]);
    // top 10 + shared max(50, 60) + only_left 7 + p 5
    assert_eq!(merged.size(), 82);
    assert_eq!(merged.last_modified(), 900);
    assert_eq!(merged.subdirectories().len(), 2);
    let docs = &merged.subdirectories()[0];
    assert_eq!(docs.name(), "docs");
    assert_eq!(docs.size(), 67);
    assert_eq!(docs.files()[0].links(), &vec!["l/shared".to_string(), "r/shared".to_string()]);
}

#[test]
fn empty_directory_time_is_zero() {
    let empty = CombinableDir::new("e".to_string(), vec![], vec![]);
    assert_eq!(empty.size(), 0);
    assert_eq!(empty.last_modified(), 0);
    let merged = combine_vfs_dirs(vec![empty.clone(), empty]);
    assert_eq!(merged.last_modified(), 0);
    assert_eq!(merged.files().len(), 0);
}

#[test]
fn merge_takes_first_name() {
    let a = CombinableDir::new("first".to_string(), vec![], vec![]);
    let b = CombinableDir::new("second".to_string(), vec![], vec![]);
    assert_eq!(combine_vfs_dirs(vec![a, b]).name(), "first");
}

#[test]
fn mount_on_empty_path_is_identity() {
    let dir = CombinableDir::new(
        "d".to_string(),
        vec![StaticCombinableFile::new("f".to_string(), 9, 1, vec!["l".to_string()])],
        vec![],
    );
    let mounted = dir.mount(vec![]);
    assert_eq!(mounted.name(), "d");
    assert_eq!(mounted.size(), 9);
}

#[test]
fn random_link_is_one_of_the_links() {
    let file = StaticCombinableFile::new(
        "f".to_string(),
        1,
        1,
        vec!["a".to_string(), "b".to_string(), "c".to_string()],
    );
    for _ in 0..50 {
        let l = file.random_link();
        assert!(file.links.contains(&l));
        let d = file.on_download();
        assert!(file.links.contains(&d));
    }
}

#[test]
fn destruct_returns_parts() {
    let file = StaticCombinableFile::new("f".to_string(), 3, 4, vec!["l".to_string()]);
    let (n, s, t, l) = file.destruct();
    assert_eq!((n.as_str(), s, t), ("f", 3, 4));
    assert_eq!(l, vec!["l".to_string()]);
    let dir = CombinableDir::new("d".to_string(), vec![], vec![]);
    let (name, files, subdirectories) = dir.destruct();
    assert_eq!(name, "d");
    assert!(files.is_empty() && subdirectories.is_empty());
}

#[test]
fn built_directories_are_well_formed() {
    let sub = CombinableDir::new(
        "sub".to_string(),
        vec![StaticCombinableFile::new("a".to_string(), 3, 30, vec!["l/a".to_string()])],
        vec![],
    );
    let root = CombinableDir::new("root".to_string(), vec![], vec![sub]);
    assert!(root.is_well_formed());
    let merged = combine_vfs_dirs(vec![root.clone(), root]);
    assert!(merged.is_well_formed());
    assert!(merged.mount(vec!["m".to_string()]).is_well_formed());
}
