use ziprs::compress::Compression;
use ziprs::names::{dir_name_of, final_component_of, is_safe_entry_path, lex_le, str_eq};

#[test]
fn test_final_component_plain() {
    assert_eq!(final_component_of("a/b"), Some("b".to_string()));
    assert_eq!(final_component_of("file1.txt"), Some("file1.txt".to_string()));
    assert_eq!(final_component_of("/tmp/work/sub"), Some("sub".to_string()));
    assert_eq!(final_component_of("a//b"), Some("b".to_string()));
    assert_eq!(final_component_of("dir/"), Some("dir".to_string()));
}

#[test]
fn test_final_component_markers() {
    assert_eq!(final_component_of("."), None);
    assert_eq!(final_component_of("./"), None);
    assert_eq!(final_component_of("/"), None);
    assert_eq!(final_component_of(""), None);
    assert_eq!(final_component_of(".."), None);
    assert_eq!(final_component_of("a/.."), None);
    assert_eq!(final_component_of("foo/."), Some("foo".to_string()));
}

#[test]
fn test_safe_entry_path() {
    assert!(is_safe_entry_path("a/b.txt"));
    assert!(is_safe_entry_path("a/../b.txt"));
    assert!(is_safe_entry_path("dir/"));
    assert!(is_safe_entry_path(""));
    assert!(!is_safe_entry_path("../evil.txt"));
    assert!(!is_safe_entry_path("/etc/passwd"));
    assert!(!is_safe_entry_path("a/../../evil"));
    assert!(!is_safe_entry_path("bad\0name"));
    assert!(is_safe_entry_path("./a"));
}

#[test]
fn test_dir_name_of() {
    assert_eq!(dir_name_of("sub"), "sub/".to_string());
    assert_eq!(dir_name_of("sub/"), "sub/".to_string());
}

#[test]
fn test_string_order() {
    assert!(lex_le("a", "b"));
    assert!(lex_le("a", "a/b"));
    assert!(lex_le("abc", "abc"));
    assert!(!lex_le("b", "a"));
    assert!(str_eq("same", "same"));
    assert!(!str_eq("same", "Same"));
}

#[test]
fn test_compression_from_str() {
    assert!(matches!(Compression::from_str("stored"), Ok(Compression::Stored)));
    assert!(matches!(Compression::from_str("STORED"), Ok(Compression::Stored)));
    assert!(matches!(Compression::from_str("deflate"), Ok(Compression::Deflate)));
    assert!(matches!(Compression::from_str("Deflated"), Ok(Compression::Deflate)));
    assert!(matches!(Compression::from_str("bzip2"), Ok(Compression::Bzip2)));
    assert!(matches!(Compression::from_str("zstd"), Ok(Compression::Zstd)));
    let err = Compression::from_str("lzma").unwrap_err();
    assert_eq!(err, "Unsupported compression method: lzma".to_string());
}

#[test]
fn test_compression_default() {
    assert!(matches!(Compression::default(), Compression::Deflate));
}
