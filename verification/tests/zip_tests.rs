use ziprs::builder::zip_files;
use ziprs::compress::Compression;
use ziprs::entries::{SourceSpec, WalkedEntry};
use ziprs::extract::unzip_files;

fn file_source(path: &str, content: &[u8], mode: u32) -> SourceSpec {
    SourceSpec::SingleFile { path: path.to_string(), mode, content: content.to_vec() }
}

fn walked(rel_path: &str, is_dir: bool, mode: u32, content: &[u8]) -> WalkedEntry {
    WalkedEntry { rel_path: rel_path.to_string(), is_dir, mode, content: content.to_vec() }
}

fn archive_names(bytes: &Vec<u8>) -> Vec<String> {
    let plan = unzip_files(bytes).unwrap();
    let mut names: Vec<String> = plan.dirs.clone();
    for f in &plan.files {
        names.push(f.rel_path.clone());
    }
    names
}

#[test]
fn test_zip_files_creates_zip() {
    let sources = vec![file_source("work/file1.txt", b"hello", 0o644)];
    let bytes = zip_files(&sources, Compression::default()).unwrap();
    assert!(bytes.len() > 0);

    let plan = unzip_files(&bytes).unwrap();
    assert_eq!(plan.dirs.len(), 0);
    assert_eq!(plan.files.len(), 1);
    assert_eq!(plan.files[0].rel_path, "file1.txt");
    assert_eq!(plan.files[0].content, b"hello".to_vec());
}

#[test]
fn lib_test_zip_files_creates_zip() {
    let sources = vec![
        file_source("work/file1.txt", b"hello", 0o644),
        file_source("work/file2.txt", b"world", 0o644),
    ];
    let bytes = zip_files(&sources, Compression::default()).unwrap();
    assert!(bytes.len() > 0);
    let names = archive_names(&bytes);
    assert!(names.contains(&"file1.txt".to_string()));
    assert!(names.contains(&"file2.txt".to_string()));
}

#[test]
fn test_zip_files_and_directories() {
    let sources = vec![
        file_source("work/file1.txt", b"hello from file1", 0o644),
        SourceSpec::DirectoryTree {
            path: "work/subdir".to_string(),
            mode: 0o755,
            entries: vec![walked("subfile.txt", false, 0o644, b"hello from subfile")],
        },
    ];
    let bytes = zip_files(&sources, Compression::default()).unwrap();
    let names = archive_names(&bytes);
    assert!(names.contains(&"file1.txt".to_string()), "file1.txt should be in the zip");
    assert!(names.contains(&"subdir/".to_string()), "subdir/ should be in the zip");
    assert!(
        names.contains(&"subdir/subfile.txt".to_string()),
        "subdir/subfile.txt should be in the zip"
    );

    let plan = unzip_files(&bytes).unwrap();
    let sub = plan.files.iter().find(|f| f.rel_path == "subdir/subfile.txt").unwrap();
    assert_eq!(sub.content, b"hello from subfile".to_vec());
}

#[test]
fn test_zip_preserves_permissions() {
    let sources = vec![
        file_source("work/executable.sh", b"#!/bin/bash\necho 'hello'", 0o755),
        file_source("work/readonly.txt", b"read only content", 0o444),
        SourceSpec::DirectoryTree {
            path: "work/subdir".to_string(),
            mode: 0o755,
            entries: vec![walked("subfile.txt", false, 0o600, b"sub file content")],
        },
    ];
    let bytes = zip_files(&sources, Compression::default()).unwrap();
    let plan = unzip_files(&bytes).unwrap();
    for f in &plan.files {
        let mode = f.mode.unwrap_or(0) & 0o777;
        match f.rel_path.as_str() {
            "executable.sh" => assert_eq!(mode, 0o755),
            "readonly.txt" => assert_eq!(mode, 0o444),
            "subdir/subfile.txt" => assert_eq!(mode, 0o600),
            other => panic!("unexpected entry {}", other),
        }
    }
    assert_eq!(plan.files.len(), 3);
}

#[test]
fn zip_test_zip_preserves_permissions() {
    let sources = vec![file_source("work/executable.sh", b"#!/bin/bash\\necho hello", 0o755)];
    let bytes = zip_files(&sources, Compression::default()).unwrap();
    let mut archive = zip::ZipArchive::new(std::io::Cursor::new(bytes)).unwrap();
    let entry = archive.by_name("executable.sh").unwrap();
    assert_eq!(entry.unix_mode().unwrap() & 0o777, 0o755, "Permissions not preserved");
    assert!(entry.size() > 0);
}

#[test]
fn test_zip_directory_with_dot() {
    // the directory itself: every entry under its display name
    let tree = SourceSpec::DirectoryTree {
        path: "base/my_project".to_string(),
        mode: 0o755,
        entries: vec![
            walked("file.txt", false, 0o644, b"content"),
            walked("data", true, 0o755, b""),
            walked("data/notes.txt", false, 0o644, b"notes"),
        ],
    };
    let bytes = zip_files(&vec![tree], Compression::default()).unwrap();
    let names = archive_names(&bytes);
    assert!(
        names.contains(&"my_project/".to_string()),
        "Archive should contain my_project/ directory entry"
    );
    assert!(names.contains(&"my_project/file.txt".to_string()));
    assert!(names.contains(&"my_project/data/".to_string()));
    assert!(names.contains(&"my_project/data/notes.txt".to_string()));

    // the contents directly: no my_project prefix
    let sources = vec![
        file_source("base/my_project/file.txt", b"content", 0o644),
        SourceSpec::DirectoryTree {
            path: "base/my_project/data".to_string(),
            mode: 0o755,
            entries: vec![walked("notes.txt", false, 0o644, b"notes")],
        },
    ];
    let bytes_rel = zip_files(&sources, Compression::default()).unwrap();
    let names_rel = archive_names(&bytes_rel);
    assert!(names_rel.contains(&"file.txt".to_string()));
    assert!(names_rel.contains(&"data/".to_string()));
    assert!(names_rel.contains(&"data/notes.txt".to_string()));
    assert!(
        !names_rel.contains(&"my_project/".to_string()),
        "Should not include my_project prefix when zipping contents directly"
    );
}

#[test]
fn test_zip_empty_directory() {
    let sources = vec![SourceSpec::DirectoryTree {
        path: "work/empty_dir".to_string(),
        mode: 0o755,
        entries: vec![],
    }];
    let bytes = zip_files(&sources, Compression::default()).unwrap();
    let archive = zip::ZipArchive::new(std::io::Cursor::new(bytes)).unwrap();
    assert_eq!(archive.len(), 1, "Zip should contain one entry for the empty directory");
    assert_eq!(archive.file_names().next().unwrap(), "empty_dir/");
}

#[test]
fn test_zip_compression_methods() {
    let mut large_content = String::new();
    for i in 0..1000 {
        large_content.push_str(&format!("Line {} with some repetitive text. ", i));
    }
    let sources = vec![file_source(
        "work/compressible_data.txt",
        large_content.as_bytes(),
        0o644,
    )];

    let stored_bytes = zip_files(&sources, Compression::Stored).unwrap();
    let mut stored_archive = zip::ZipArchive::new(std::io::Cursor::new(stored_bytes)).unwrap();
    let stored_entry = stored_archive.by_name("compressible_data.txt").unwrap();
    assert_eq!(stored_entry.compression(), zip::CompressionMethod::Stored);
    let stored_size = stored_entry.compressed_size();
    drop(stored_entry);

    let deflate_bytes = zip_files(&sources, Compression::Deflate).unwrap();
    let mut deflate_archive = zip::ZipArchive::new(std::io::Cursor::new(deflate_bytes)).unwrap();
    let deflate_entry = deflate_archive.by_name("compressible_data.txt").unwrap();
    assert_eq!(deflate_entry.compression(), zip::CompressionMethod::Deflated);
    let deflated_size = deflate_entry.compressed_size();
    println!("Stored size: {}, Deflated size: {}", stored_size, deflated_size);
    assert!(
        deflated_size < stored_size,
        "Deflated size should be less than stored size for this data."
    );
}

#[test]
fn test_zip_other_compression_methods_roundtrip() {
    let content = b"some contents worth keeping intact whatever the codec".to_vec();
    for method in [Compression::Bzip2, Compression::Zstd] {
        let sources = vec![file_source("work/data.bin", &content, 0o640)];
        let bytes = zip_files(&sources, method).unwrap();
        let plan = unzip_files(&bytes).unwrap();
        assert_eq!(plan.files.len(), 1);
        assert_eq!(plan.files[0].content, content);
    }
}

#[test]
fn test_zip_directories_precede_their_contents() {
    // scanning entries in the order written, a directory stands before
    // everything under it, whatever order the walk handed them over in
    let tree = SourceSpec::DirectoryTree {
        path: "base/top".to_string(),
        mode: 0o755,
        entries: vec![
            walked("deep/inner/leaf.txt", false, 0o644, b"leaf"),
            walked("deep/inner", true, 0o755, b""),
            walked("deep", true, 0o755, b""),
            walked("other.txt", false, 0o644, b"other"),
        ],
    };
    let bytes = zip_files(&vec![tree], Compression::default()).unwrap();
    let archive = zip::ZipArchive::new(std::io::Cursor::new(bytes)).unwrap();
    let names: Vec<String> = archive.file_names().map(|n| n.to_string()).collect();
    for (i, dir) in names.iter().enumerate() {
        if dir.ends_with('/') {
            for (j, other) in names.iter().enumerate() {
                if other.len() > dir.len() && other.starts_with(dir.as_str()) {
                    assert!(i < j, "{} should precede {}", dir, other);
                }
            }
        }
    }
    assert!(names.contains(&"top/deep/inner/".to_string()));
    assert!(names.contains(&"top/deep/inner/leaf.txt".to_string()));
}

#[test]
fn test_zip_source_without_name_is_refused() {
    let sources = vec![file_source("..", b"x", 0o644)];
    let err = zip_files(&sources, Compression::default()).unwrap_err();
    assert!(matches!(err, ziprs::errors::ArchiveError::InvalidName(_)));
}

#[test]
fn test_zip_many_sources_directories_precede_contents() {
    // the ordering holds across distinctly named sources too
    let sources = vec![
        SourceSpec::DirectoryTree {
            path: "base/alpha".to_string(),
            mode: 0o755,
            entries: vec![
                walked("one.txt", false, 0o644, b"1"),
                walked("inner", true, 0o755, b""),
                walked("inner/two.txt", false, 0o644, b"2"),
            ],
        },
        file_source("base/plain.txt", b"plain", 0o644),
        SourceSpec::DirectoryTree {
            path: "base/beta".to_string(),
            mode: 0o755,
            entries: vec![walked("three.txt", false, 0o644, b"3")],
        },
    ];
    let bytes = zip_files(&sources, Compression::default()).unwrap();
    let archive = zip::ZipArchive::new(std::io::Cursor::new(bytes)).unwrap();
    let names: Vec<String> = archive.file_names().map(|n| n.to_string()).collect();
    for (i, dir) in names.iter().enumerate() {
        if dir.ends_with('/') {
            for (j, other) in names.iter().enumerate() {
                if other.len() > dir.len() && other.starts_with(dir.as_str()) {
                    assert!(i < j, "{} should precede {}", dir, other);
                }
            }
        }
    }
    assert_eq!(names.len(), 7);
}

#[test]
fn test_zip_duplicate_entry_names_fail_as_io() {
    // two sources of one display name ask the codec to write one entry
    // name twice, which it refuses; the build aborts whole
    let sources = vec![
        file_source("here/file1.txt", b"one", 0o644),
        file_source("there/file1.txt", b"two", 0o644),
    ];
    let err = zip_files(&sources, Compression::default()).unwrap_err();
    assert!(matches!(err, ziprs::errors::ArchiveError::Io(_)));
}

#[test]
fn test_zip_unnamed_tree_spills_at_root() {
    // zipping "." puts children straight at archive root, with no top entry
    let tree = SourceSpec::DirectoryTree {
        path: ".".to_string(),
        mode: 0o755,
        entries: vec![
            walked("sub", true, 0o700, b""),
            walked("sub/inner.txt", false, 0o644, b"inner"),
        ],
    };
    let bytes = zip_files(&vec![tree], Compression::default()).unwrap();
    let names = archive_names(&bytes);
    assert_eq!(names.len(), 2);
    assert!(names.contains(&"sub/".to_string()));
    assert!(names.contains(&"sub/inner.txt".to_string()));
}

#[test]
fn test_zip_directory_entries_sorted_and_deduplicated() {
    // walk order scrambled; duplicate directory entries collapse
    let tree = SourceSpec::DirectoryTree {
        path: "base/d".to_string(),
        mode: 0o755,
        entries: vec![
            walked("z", true, 0o755, b""),
            walked("a", true, 0o755, b""),
            walked("a", true, 0o700, b""),
            walked("m/n", true, 0o755, b""),
            walked("m", true, 0o755, b""),
        ],
    };
    let bytes = zip_files(&vec![tree], Compression::default()).unwrap();
    let plan = unzip_files(&bytes).unwrap();
    assert_eq!(
        plan.dirs,
        vec![
            "d/".to_string(),
            "d/a/".to_string(),
            "d/m/".to_string(),
            "d/m/n/".to_string(),
            "d/z/".to_string(),
        ]
    );
}
