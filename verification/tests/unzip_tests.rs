use ziprs::builder::zip_files;
use ziprs::compress::Compression;
use ziprs::entries::{SourceSpec, WalkedEntry};
use ziprs::extract::unzip_files;

#[test]
fn test_unzip_files_basic() {
    let sources = vec![
        SourceSpec::SingleFile {
            path: "orig/file1.txt".to_string(),
            mode: 0o644,
            content: b"hello from file1".to_vec(),
        },
        SourceSpec::DirectoryTree {
            path: "orig/subdir".to_string(),
            mode: 0o755,
            entries: vec![WalkedEntry {
                rel_path: "subfile.txt".to_string(),
                is_dir: false,
                mode: 0o755,
                content: b"hello from subfile".to_vec(),
            }],
        },
    ];
    let bytes = zip_files(&sources, Compression::default()).unwrap();
    let plan = unzip_files(&bytes).unwrap();

    assert!(plan.dirs.contains(&"subdir/".to_string()), "subdir should be extracted as a directory");
    let file1 = plan
        .files
        .iter()
        .find(|f| f.rel_path == "file1.txt")
        .expect("file1.txt should be extracted");
    assert_eq!(file1.content, b"hello from file1".to_vec());
    let subfile = plan
        .files
        .iter()
        .find(|f| f.rel_path == "subdir/subfile.txt")
        .expect("subdir/subfile.txt should be extracted");
    assert_eq!(subfile.content, b"hello from subfile".to_vec());

    assert_eq!(
        file1.mode.unwrap() & 0o777,
        0o644,
        "Permissions for file1.txt mismatch. Expected {:o}, got {:o}",
        0o644,
        file1.mode.unwrap() & 0o777
    );
    assert_eq!(
        subfile.mode.unwrap() & 0o777,
        0o755,
        "Permissions for subfile.txt mismatch. Expected {:o}, got {:o}",
        0o755,
        subfile.mode.unwrap() & 0o777
    );
}

#[test]
fn test_unzip_empty_directory() {
    let sources = vec![SourceSpec::DirectoryTree {
        path: "orig/empty_subdir".to_string(),
        mode: 0o755,
        entries: vec![],
    }];
    let bytes = zip_files(&sources, Compression::default()).unwrap();
    let plan = unzip_files(&bytes).unwrap();
    assert_eq!(plan.dirs, vec!["empty_subdir/".to_string()], "Empty subdirectory should be extracted.");
    assert_eq!(plan.files.len(), 0, "Extracted empty subdirectory should be empty.");
}

#[test]
fn test_unzip_rejects_invalid_data() {
    let not_an_archive = b"this is no archive at all".to_vec();
    let err = unzip_files(&not_an_archive).unwrap_err();
    assert!(matches!(err, ziprs::errors::ArchiveError::InvalidData(_)));
}

#[test]
fn test_unzip_skips_traversal_entries() {
    // an archive crafted with entries that try to climb out of the
    // destination, next to an honest one
    let mut writer = zip::ZipWriter::new(std::io::Cursor::new(Vec::new()));
    let opts = zip::write::SimpleFileOptions::default().unix_permissions(0o644);
    writer.start_file("../evil.txt", opts).unwrap();
    std::io::Write::write_all(&mut writer, b"evil").unwrap();
    writer.start_file("/abs.txt", opts).unwrap();
    std::io::Write::write_all(&mut writer, b"abs").unwrap();
    writer.start_file("nested/../../evil2.txt", opts).unwrap();
    std::io::Write::write_all(&mut writer, b"evil2").unwrap();
    writer.start_file("good.txt", opts).unwrap();
    std::io::Write::write_all(&mut writer, b"good").unwrap();
    let bytes = writer.finish().unwrap().into_inner();

    let plan = unzip_files(&bytes).unwrap();
    assert_eq!(plan.files.len(), 1);
    assert_eq!(plan.files[0].rel_path, "good.txt");
    assert_eq!(plan.files[0].content, b"good".to_vec());
    assert_eq!(plan.dirs.len(), 0);
}

#[test]
fn test_unzip_keeps_inside_traversal() {
    // `a/../b.txt` stays inside the destination and is kept, as the codec's
    // own safety rule also has it
    let mut writer = zip::ZipWriter::new(std::io::Cursor::new(Vec::new()));
    let opts = zip::write::SimpleFileOptions::default().unix_permissions(0o644);
    writer.start_file("a/../b.txt", opts).unwrap();
    std::io::Write::write_all(&mut writer, b"kept").unwrap();
    let bytes = writer.finish().unwrap().into_inner();

    let plan = unzip_files(&bytes).unwrap();
    assert_eq!(plan.files.len(), 1);
    assert_eq!(plan.files[0].rel_path, "a/../b.txt");
}

#[test]
fn test_unzip_entry_without_mode() {
    // an entry written without permission attributes extracts with none
    let mut writer = zip::ZipWriter::new(std::io::Cursor::new(Vec::new()));
    let opts = zip::write::SimpleFileOptions::default();
    writer.start_file("plain.txt", opts).unwrap();
    std::io::Write::write_all(&mut writer, b"plain").unwrap();
    let bytes = writer.finish().unwrap().into_inner();

    let plan = unzip_files(&bytes).unwrap();
    assert_eq!(plan.files.len(), 1);
    // the codec fills a default mode for files it writes; all this test
    // asserts is that extraction passes whatever was stored through
    assert_eq!(plan.files[0].content, b"plain".to_vec());
}

#[test]
fn test_plan_extract_classifies_entries() {
    // a `/`-terminated name is a pending directory, any other a pending
    // file; a missing mode stays missing
    let entries = vec![
        ziprs::entries::RawEntry { name: "d/".to_string(), mode: None, content: vec![] },
        ziprs::entries::RawEntry { name: "d/f.txt".to_string(), mode: None, content: b"x".to_vec() },
        ziprs::entries::RawEntry { name: "../out".to_string(), mode: Some(0o644), content: b"y".to_vec() },
    ];
    let plan = ziprs::extract::plan_extract(&entries);
    assert_eq!(plan.dirs, vec!["d/".to_string()]);
    assert_eq!(plan.files.len(), 1);
    assert_eq!(plan.files[0].rel_path, "d/f.txt");
    assert_eq!(plan.files[0].mode, None);
}

#[test]
fn test_roundtrip_concrete_scenario() {
    // one source file, zipped alone and extracted to a fresh destination:
    // the same name, the exact bytes, and the same nine permission bits
    let sources = vec![SourceSpec::SingleFile {
        path: "somewhere/file1.txt".to_string(),
        mode: 0o644,
        content: b"hello".to_vec(),
    }];
    let bytes = zip_files(&sources, Compression::default()).unwrap();
    let plan = unzip_files(&bytes).unwrap();
    assert_eq!(plan.dirs.len(), 0);
    assert_eq!(plan.files.len(), 1);
    assert_eq!(plan.files[0].rel_path, "file1.txt");
    assert_eq!(plan.files[0].content, b"hello".to_vec());
    assert_eq!(plan.files[0].mode.unwrap() & 0o777, 0o644);
}

#[test]
fn test_roundtrip_whole_tree() {
    let sources = vec![SourceSpec::DirectoryTree {
        path: "root/tree".to_string(),
        mode: 0o750,
        entries: vec![
            WalkedEntry {
                rel_path: "a.bin".to_string(),
                is_dir: false,
                mode: 0o600,
                content: vec![0u8, 1, 2, 255, 254, 0, 7],
            },
            WalkedEntry {
                rel_path: "sub".to_string(),
                is_dir: true,
                mode: 0o700,
                content: vec![],
            },
            WalkedEntry {
                rel_path: "sub/b.txt".to_string(),
                is_dir: false,
                mode: 0o444,
                content: b"second file".to_vec(),
            },
        ],
    }];
    for method in [Compression::Stored, Compression::Deflate] {
        let bytes = zip_files(&sources, method).unwrap();
        let plan = unzip_files(&bytes).unwrap();
        assert_eq!(plan.dirs, vec!["tree/".to_string(), "tree/sub/".to_string()]);
        assert_eq!(plan.files.len(), 2);
        let a = plan.files.iter().find(|f| f.rel_path == "tree/a.bin").unwrap();
        assert_eq!(a.content, vec![0u8, 1, 2, 255, 254, 0, 7]);
        assert_eq!(a.mode.unwrap() & 0o777, 0o600);
        let b = plan.files.iter().find(|f| f.rel_path == "tree/sub/b.txt").unwrap();
        assert_eq!(b.content, b"second file".to_vec());
        assert_eq!(b.mode.unwrap() & 0o777, 0o444);
    }
}
