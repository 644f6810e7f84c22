use std::io::Cursor;
use std::io::Write;

use ipa_personalizer::archive::{ArchiveEntry, Compression, ENTRY_PERMISSIONS};
use ipa_personalizer::builder::{ArchiveBuilder, SourceNode, SourceTree};
use ipa_personalizer::container::RawRecord;
use ipa_personalizer::error::{ArchiveError, BuildError};
use ipa_personalizer::path::{
    chars_less, enclosed_segment, plain_segment, safe_path, split_path, walk_path,
};
use ipa_personalizer::reader::ArchiveReader;

fn archive_file(path: &str, content: &[u8]) -> SourceNode {
    SourceNode { relative_path: path.to_string(), is_file: true, content: Some(content.to_vec()) }
}

fn archive_dir(path: &str) -> SourceNode {
    SourceNode { relative_path: path.to_string(), is_file: false, content: None }
}

fn archive_sample_tree() -> SourceTree {
    SourceTree {
        is_directory: true,
        nodes: vec![
            archive_file("Payload/App.app/Info.plist", b"configuration"),
            archive_dir("Payload/App.app"),
            archive_dir(""),
            archive_dir("Payload"),
            archive_file("Payload/App.app/App", &[0u8, 1, 2, 255]),
            archive_dir("Payload/App.app/Empty"),
        ],
        failed: vec![],
    }
}

fn archive_zip_with(names: &[(&str, &[u8])]) -> Vec<u8> {
    let mut writer = zip::ZipWriter::new(Cursor::new(Vec::new()));
    for (name, content) in names {
        let options = zip::write::FileOptions::default()
            .compression_method(zip::CompressionMethod::Stored);
        writer.start_file(*name, options).unwrap();
        writer.write_all(content).unwrap();
    }
    writer.finish().unwrap().into_inner()
}

#[test]
fn plan_orders_entries_by_path_and_leaves_the_root_out() {
    let planned = ArchiveBuilder::plan(&archive_sample_tree()).unwrap();
    let paths: Vec<&str> = planned.iter().map(|e| e.path.as_str()).collect();
    assert_eq!(
        paths,
        vec![
            "Payload",
            "Payload/App.app",
            "Payload/App.app/App",
            "Payload/App.app/Empty",
            "Payload/App.app/Info.plist",
        ]
    );
    assert!(planned[0].is_directory);
    assert!(planned[1].is_directory);
    assert!(!planned[2].is_directory);
    assert!(planned[3].is_directory);
    assert!(!planned[4].is_directory);
    assert_eq!(planned[2].content, vec![0u8, 1, 2, 255]);
    assert_eq!(planned[3].content, Vec::<u8>::new());
    assert_eq!(planned[4].content, b"configuration".to_vec());
    for entry in &planned {
        assert_eq!(entry.permissions, 0o755);
        assert_eq!(entry.permissions, ENTRY_PERMISSIONS);
    }
}

#[test]
fn order_sorts_indices_by_path() {
    let nodes = vec![archive_dir("b"), archive_dir("a/b"), archive_dir("a"), archive_dir("a-b")];
    assert_eq!(ArchiveBuilder::order(&nodes), vec![2, 3, 1, 0]);
}

#[test]
fn order_keeps_nodes_of_equal_path_in_their_order() {
    let nodes = vec![archive_dir("x"), archive_dir("a"), archive_dir("x"), archive_dir("a")];
    assert_eq!(ArchiveBuilder::order(&nodes), vec![1, 3, 0, 2]);
}

#[test]
fn plan_refuses_a_source_that_is_no_directory() {
    let tree = SourceTree { is_directory: false, nodes: vec![], failed: vec![] };
    assert_eq!(ArchiveBuilder::plan(&tree), Err(BuildError::SourceNotFound));
    assert_eq!(ArchiveBuilder::build(&tree, Compression::Deflated), Err(BuildError::SourceNotFound));
}

#[test]
fn plan_refuses_a_file_that_could_not_be_read() {
    let tree = SourceTree {
        is_directory: true,
        nodes: vec![
            archive_dir(""),
            archive_file("a", b"x"),
            SourceNode { relative_path: "b".to_string(), is_file: true, content: None },
        ],
        failed: vec![],
    };
    assert_eq!(ArchiveBuilder::plan(&tree), Err(BuildError::Io));
    assert_eq!(ArchiveBuilder::build(&tree, Compression::Stored), Err(BuildError::Io));
}

#[test]
fn plan_refuses_a_walk_that_could_not_go_on() {
    let tree = SourceTree {
        is_directory: true,
        nodes: vec![archive_dir(""), archive_file("a", b"x"), archive_dir("locked")],
        failed: vec!["source/locked".to_string()],
    };
    assert_eq!(ArchiveBuilder::plan(&tree), Err(BuildError::Io));
    assert_eq!(ArchiveBuilder::build(&tree, Compression::Deflated), Err(BuildError::Io));
}

#[test]
fn plan_refuses_a_path_that_no_walk_yields() {
    for path in ["../up", "a/..", "/abs", "a//b", "a/", "a/./b", ".", "nul\0"] {
        let tree = SourceTree {
            is_directory: true,
            nodes: vec![archive_dir(""), archive_file(path, b"x")],
            failed: vec![],
        };
        assert_eq!(ArchiveBuilder::plan(&tree), Err(BuildError::Io));
        let tree = SourceTree {
            is_directory: true,
            nodes: vec![archive_dir(""), archive_dir(path)],
            failed: vec![],
        };
        assert_eq!(ArchiveBuilder::build(&tree, Compression::Stored), Err(BuildError::Io));
    }
    let tree = SourceTree {
        is_directory: true,
        nodes: vec![archive_file("", b"the source itself as a file")],
        failed: vec![],
    };
    assert_eq!(ArchiveBuilder::plan(&tree), Err(BuildError::Io));
}

#[test]
fn build_packs_names_with_a_backslash() {
    let tree = SourceTree {
        is_directory: true,
        nodes: vec![
            archive_dir(""),
            archive_file("a\\b", b"one"),
            archive_dir("dir\\"),
            archive_file("dir\\/..\\x", b"two"),
            archive_file("c:\\d", b"three"),
        ],
        failed: vec![],
    };
    let planned = ArchiveBuilder::plan(&tree).unwrap();
    for compression in [Compression::Deflated, Compression::Stored] {
        let image = ArchiveBuilder::build(&tree, compression).unwrap();
        let reader = ArchiveReader::open(image).unwrap();
        assert_eq!(reader.entries(), &planned);
        let paths: Vec<&str> = reader.entries().iter().map(|e| e.path.as_str()).collect();
        assert_eq!(paths, vec!["a\\b", "c:\\d", "dir\\", "dir\\/..\\x"]);
        assert!(reader.entries()[2].is_directory);
        assert_eq!(reader.entries()[3].content, b"two".to_vec());
        let plan = reader.extract("out").unwrap();
        assert_eq!(plan[0].path, "out/a\\b");
        assert_eq!(plan[3].path, "out/dir\\/..\\x");
    }
}

#[test]
fn plan_refuses_a_path_that_comes_twice() {
    let tree = SourceTree {
        is_directory: true,
        nodes: vec![archive_dir(""), archive_file("a", b"x"), archive_dir("b"), archive_dir("a")],
        failed: vec![],
    };
    assert_eq!(ArchiveBuilder::plan(&tree), Err(BuildError::Io));
    let tree = SourceTree {
        is_directory: true,
        nodes: vec![archive_dir(""), archive_dir("")],
        failed: vec![],
    };
    assert_eq!(ArchiveBuilder::plan(&tree), Err(BuildError::Io));
}

#[test]
fn build_succeeds_on_every_small_tree() {
    let empty = SourceTree { is_directory: true, nodes: vec![], failed: vec![] };
    assert!(ArchiveBuilder::build(&empty, Compression::Deflated).is_ok());
    assert!(ArchiveBuilder::pack(&vec![], Compression::Stored).is_ok());
    let only_root = SourceTree { is_directory: true, nodes: vec![archive_dir("")], failed: vec![] };
    let image = ArchiveBuilder::build(&only_root, Compression::Deflated).unwrap();
    assert_eq!(ArchiveReader::open(image).unwrap().entries().len(), 0);
    let empty_file = SourceTree {
        is_directory: true,
        nodes: vec![archive_dir(""), archive_file("empty", b""), archive_file("caf\u{e9}", b"1")],
        failed: vec![],
    };
    let image = ArchiveBuilder::build(&empty_file, Compression::Deflated).unwrap();
    let reader = ArchiveReader::open(image).unwrap();
    assert_eq!(reader.entries()[0].path, "caf\u{e9}");
    assert_eq!(reader.entries()[1].path, "empty");
    assert_eq!(reader.entries()[1].content, Vec::<u8>::new());
    assert!(!reader.entries()[1].is_directory);
}

#[test]
fn build_then_open_gives_the_planned_entries() {
    let tree = archive_sample_tree();
    let planned = ArchiveBuilder::plan(&tree).unwrap();
    for compression in [Compression::Deflated, Compression::Stored] {
        let image = ArchiveBuilder::build(&tree, compression).unwrap();
        let reader = ArchiveReader::open(image).unwrap();
        assert_eq!(reader.entries(), &planned);
    }
}

#[test]
fn build_is_deterministic() {
    let tree = archive_sample_tree();
    let first = ArchiveBuilder::build(&tree, Compression::Deflated).unwrap();
    let second = ArchiveBuilder::build(&tree, Compression::Deflated).unwrap();
    assert_eq!(first, second);
    let mut shuffled = archive_sample_tree();
    shuffled.nodes.reverse();
    assert_eq!(ArchiveBuilder::build(&shuffled, Compression::Deflated).unwrap(), first);
}

#[test]
fn built_archive_holds_directories_as_records_of_their_own() {
    let image = ArchiveBuilder::build(&archive_sample_tree(), Compression::Deflated).unwrap();
    let mut archive = zip::ZipArchive::new(Cursor::new(image)).unwrap();
    let mut names = Vec::new();
    for i in 0..archive.len() {
        let file = archive.by_index(i).unwrap();
        names.push((file.name().to_string(), file.unix_mode()));
    }
    assert_eq!(
        names,
        vec![
            ("Payload/".to_string(), Some(0o40755)),
            ("Payload/App.app/".to_string(), Some(0o40755)),
            ("Payload/App.app/App".to_string(), Some(0o100755)),
            ("Payload/App.app/Empty/".to_string(), Some(0o40755)),
            ("Payload/App.app/Info.plist".to_string(), Some(0o100755)),
        ]
    );
}

#[test]
fn pack_writes_what_it_is_given() {
    let entries = vec![
        ArchiveEntry {
            path: "only".to_string(),
            is_directory: false,
            content: b"content".to_vec(),
            permissions: 0o644,
        },
    ];
    let image = ArchiveBuilder::pack(&entries, Compression::Stored).unwrap();
    let reader = ArchiveReader::open(image).unwrap();
    assert_eq!(reader.entries(), &entries);
}

#[test]
fn pack_refuses_a_name_that_is_too_long() {
    let entry = |length: usize, is_directory: bool| ArchiveEntry {
        path: "x".repeat(length),
        is_directory,
        content: Vec::new(),
        permissions: 0o755,
    };
    assert_eq!(ArchiveBuilder::pack(&vec![entry(65536, false)], Compression::Stored), Err(BuildError::Io));
    assert_eq!(ArchiveBuilder::pack(&vec![entry(65535, true)], Compression::Stored), Err(BuildError::Io));
    for fitting in [entry(65535, false), entry(65534, true)] {
        let entries = vec![fitting];
        let image = ArchiveBuilder::pack(&entries, Compression::Stored).unwrap();
        assert_eq!(ArchiveReader::open(image).unwrap().entries(), &entries);
    }
}

#[test]
fn open_refuses_bytes_that_are_no_archive() {
    assert_eq!(ArchiveReader::open(b"not an archive".to_vec()).err(), Some(ArchiveError::MalformedArchive));
    assert_eq!(ArchiveReader::open(Vec::new()).err(), Some(ArchiveError::MalformedArchive));
}

#[test]
fn open_refuses_a_truncated_archive() {
    let mut image = archive_zip_with(&[("a", b"some content that is long enough")]);
    image.truncate(image.len() - 10);
    assert_eq!(ArchiveReader::open(image).err(), Some(ArchiveError::MalformedArchive));
}

#[test]
fn open_refuses_a_record_with_damaged_content() {
    let mut image = archive_zip_with(&[("a", b"some content")]);
    let at = image.windows(4).position(|w| w == b"some").unwrap();
    image[at] = b'S';
    assert_eq!(ArchiveReader::open(image).err(), Some(ArchiveError::MalformedArchive));
}

#[test]
fn open_reads_names_modes_and_content() {
    let image = archive_zip_with(&[("dir/", b""), ("dir/file", b"abc")]);
    let reader = ArchiveReader::open(image).unwrap();
    assert_eq!(
        reader.entries(),
        &vec![
            ArchiveEntry {
                path: "dir".to_string(),
                is_directory: true,
                content: Vec::new(),
                permissions: 0o644,
            },
            ArchiveEntry {
                path: "dir/file".to_string(),
                is_directory: false,
                content: b"abc".to_vec(),
                permissions: 0o644,
            },
        ]
    );
    assert_eq!(reader.find("dir/file"), Some(1));
    assert_eq!(reader.find("dir"), Some(0));
    assert_eq!(reader.find("missing"), None);
}

#[test]
fn from_records_refuses_a_path_that_comes_twice() {
    let records = vec![
        RawRecord { name: "a".to_string(), mode: None, data: vec![1] },
        RawRecord { name: "a/".to_string(), mode: None, data: vec![] },
    ];
    assert_eq!(ArchiveReader::from_records(records).err(), Some(ArchiveError::MalformedArchive));
}

#[test]
fn from_records_gives_default_permissions_without_a_mode() {
    let records = vec![RawRecord { name: "a".to_string(), mode: None, data: vec![1] }];
    let reader = ArchiveReader::from_records(records).unwrap();
    assert_eq!(reader.entries()[0].permissions, 0o755);
    let records = vec![RawRecord { name: "a".to_string(), mode: Some(0o100600), data: vec![1] }];
    let reader = ArchiveReader::from_records(records).unwrap();
    assert_eq!(reader.entries()[0].permissions, 0o600);
}

#[test]
fn entry_of_strips_the_separator_of_a_directory() {
    let entry = ArchiveReader::entry_of(RawRecord {
        name: "a/b/".to_string(),
        mode: Some(0o40755),
        data: vec![9],
    });
    assert_eq!(
        entry,
        ArchiveEntry {
            path: "a/b".to_string(),
            is_directory: true,
            content: Vec::new(),
            permissions: 0o755,
        }
    );
}

#[test]
fn extract_places_entries_below_the_destination() {
    let image = archive_zip_with(&[("dir/", b""), ("dir/file", b"abc")]);
    let reader = ArchiveReader::open(image).unwrap();
    let plan = reader.extract("out/temp").unwrap();
    assert_eq!(plan.len(), 2);
    assert_eq!(plan[0].path, "out/temp/dir");
    assert!(plan[0].is_directory);
    assert_eq!(plan[1].path, "out/temp/dir/file");
    assert_eq!(plan[1].content, b"abc".to_vec());
}

#[test]
fn extract_refuses_a_parent_segment() {
    let image = archive_zip_with(&[("good", b"1"), ("a/../../evil", b"2"), ("/abs", b"3")]);
    let reader = ArchiveReader::open(image).unwrap();
    assert_eq!(
        reader.extract("out").err(),
        Some(ArchiveError::ExtractionFailed { path: "a/../../evil".to_string() })
    );
}

#[test]
fn extract_refuses_a_parent_segment_that_stays_inside() {
    let image = archive_zip_with(&[("a/../b", b"2")]);
    let reader = ArchiveReader::open(image).unwrap();
    assert_eq!(
        reader.extract("out").err(),
        Some(ArchiveError::ExtractionFailed { path: "a/../b".to_string() })
    );
}

#[test]
fn extract_refuses_an_absolute_path() {
    let image = archive_zip_with(&[("/etc/passwd", b"x")]);
    let reader = ArchiveReader::open(image).unwrap();
    assert_eq!(
        reader.extract("out").err(),
        Some(ArchiveError::ExtractionFailed { path: "/etc/passwd".to_string() })
    );
}

#[test]
fn extract_refuses_the_root_as_an_entry() {
    let records = vec![RawRecord { name: "/".to_string(), mode: None, data: vec![] }];
    let reader = ArchiveReader::from_records(records).unwrap();
    assert_eq!(
        reader.extract("out").err(),
        Some(ArchiveError::ExtractionFailed { path: "".to_string() })
    );
}

#[test]
fn safe_path_refuses_what_leaves_the_directory_only() {
    assert!(safe_path("a"));
    assert!(safe_path("Payload/App.app/Info.plist"));
    assert!(safe_path("a/..b/c."));
    assert!(safe_path("a/"));
    assert!(safe_path("a//b"));
    assert!(safe_path("a/./b"));
    assert!(safe_path("./a"));
    assert!(safe_path("."));
    assert!(safe_path("a\\b"));
    assert!(safe_path("..\\b"));
    assert!(safe_path("..."));
    assert!(!safe_path(""));
    assert!(!safe_path("/"));
    assert!(!safe_path("/a"));
    assert!(!safe_path(".."));
    assert!(!safe_path("../a"));
    assert!(!safe_path("a/../b"));
    assert!(!safe_path("a/.."));
    assert!(!safe_path("a\0b"));
}

#[test]
fn walk_path_accepts_what_a_walk_yields_only() {
    assert!(walk_path("a"));
    assert!(walk_path("Payload/App.app/Info.plist"));
    assert!(walk_path("a/..b/c."));
    assert!(walk_path("a\\b/c d"));
    assert!(!walk_path(""));
    assert!(!walk_path("/a"));
    assert!(!walk_path("a/"));
    assert!(!walk_path("a//b"));
    assert!(!walk_path(".."));
    assert!(!walk_path("a/../b"));
    assert!(!walk_path("a/./b"));
    assert!(!walk_path("a\0b"));
}

#[test]
fn extract_takes_odd_but_harmless_paths() {
    let records = vec![
        RawRecord { name: "./a".to_string(), mode: None, data: vec![1] },
        RawRecord { name: "b//c".to_string(), mode: None, data: vec![2] },
        RawRecord { name: "d\\e".to_string(), mode: None, data: vec![3] },
        RawRecord { name: "./".to_string(), mode: None, data: vec![] },
    ];
    let reader = ArchiveReader::from_records(records).unwrap();
    let plan = reader.extract("out").unwrap();
    let paths: Vec<&str> = plan.iter().map(|e| e.path.as_str()).collect();
    assert_eq!(paths, vec!["out/./a", "out/b//c", "out/d\\e", "out/."]);
}

#[test]
fn extract_refuses_a_path_with_nul() {
    let records = vec![RawRecord { name: "a\0b".to_string(), mode: None, data: vec![1] }];
    let reader = ArchiveReader::from_records(records).unwrap();
    assert_eq!(
        reader.extract("out").err(),
        Some(ArchiveError::ExtractionFailed { path: "a\0b".to_string() })
    );
}

#[test]
fn split_path_keeps_empty_segments() {
    let parts: Vec<String> = split_path("/a//b/").iter().map(|p| p.iter().collect()).collect();
    assert_eq!(parts, vec!["", "a", "", "b", ""]);
    let parts: Vec<String> = split_path("").iter().map(|p| p.iter().collect()).collect();
    assert_eq!(parts, vec![""]);
}

#[test]
fn plain_segment_refuses_dots_and_separators() {
    let segment = |s: &str| plain_segment(&s.chars().collect());
    assert!(segment("name"));
    assert!(segment("..."));
    assert!(!segment(""));
    assert!(!segment("."));
    assert!(!segment(".."));
    assert!(segment("a\\"));
    assert!(!segment("a\0"));
    let enclosed = |s: &str| enclosed_segment(&s.chars().collect());
    assert!(enclosed(""));
    assert!(enclosed("."));
    assert!(enclosed("..."));
    assert!(!enclosed(".."));
    assert!(!enclosed("\0"));
}

#[test]
fn chars_less_is_the_order_of_strings() {
    let less = |a: &str, b: &str| chars_less(&a.chars().collect(), &b.chars().collect());
    for (a, b) in [("", "a"), ("a", "b"), ("a", "a/b"), ("a-b", "a/b"), ("Z", "a"), ("a", "é")] {
        assert!(less(a, b));
        assert!(!less(b, a));
        assert_eq!(less(a, b), a < b);
    }
    assert!(!less("same", "same"));
}
