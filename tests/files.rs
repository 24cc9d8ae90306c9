use db_engine::{get_files_with_ext, get_files_with_ext_and_size, get_index_path, has_extension, sort_paths, Error};

fn strings(v: &[&str]) -> Vec<String> {
    v.iter().map(|s| s.to_string()).collect()
}

#[test]
fn test_get_files_with_ext() {
    let listing = strings(&["/d/file1.txt", "/d/file2.txt", "/d/image.png", "/d/document.pdf"]);
    let txt_files = get_files_with_ext(listing, "txt");
    assert_eq!(txt_files.len(), 2);
    assert!(txt_files.iter().all(|p| p.ends_with(".txt")));
}

#[test]
fn test_get_files_with_ext_with_empty_directory() {
    let files = get_files_with_ext(Vec::new(), "txt");
    assert!(files.is_empty());
}

#[test]
fn test_get_files_with_ext_with_no_matching_files() {
    let files = get_files_with_ext(strings(&["/d/image.png", "/d/document.pdf"]), "txt");
    assert!(files.is_empty());
}

#[test]
fn test_unusual_extension() {
    let files = get_files_with_ext(strings(&["/d/file.weirdextension"]), "weirdextension");
    assert_eq!(files.len(), 1);
    assert!(files[0] == "/d/file.weirdextension");
}

#[test]
fn test_get_files_with_ext_and_size() {
    let listing = vec![
        ("/d/test1.txt".to_string(), 5),
        ("/d/test2.txt".to_string(), 10),
        ("/d/test3.jpg".to_string(), 0),
    ];
    let result = get_files_with_ext_and_size(listing, "txt", 6);
    assert_eq!(result.len(), 1);
    assert!(result.contains(&"/d/test1.txt".to_string()));
}

#[test]
fn extension_follows_last_dot_of_file_name() {
    assert!(has_extension("/d/1000.db", "db"));
    assert!(!has_extension("/d/1000.db.idx", "db"));
    assert!(has_extension("/d/1000.db.idx", "idx"));
    assert!(!has_extension("/d/.db", "db"));
    assert!(!has_extension("/d.db/file", "db"));
    assert!(!has_extension("/d/1000", "db"));
    assert!(has_extension("x.", ""));
}

#[test]
fn paths_sort_both_ways() {
    let paths = strings(&["/d/2000.db", "/d/1000.db", "/d/3000.db"]);
    assert_eq!(sort_paths(paths.clone(), true), strings(&["/d/3000.db", "/d/2000.db", "/d/1000.db"]));
    assert_eq!(sort_paths(paths, false), strings(&["/d/1000.db", "/d/2000.db", "/d/3000.db"]));
    assert!(sort_paths(Vec::new(), true).is_empty());
}

#[test]
fn index_path_sits_beside_data_file() {
    assert_eq!(get_index_path("/d/test.db").unwrap(), "/d/test.db.idx");
    assert_eq!(get_index_path("test.db").unwrap(), "test.db.idx");
    assert_eq!(get_index_path("/test.db").unwrap(), "/test.db.idx");
    assert_eq!(get_index_path(""), Err(Error::InvalidPath(String::new())));
    assert_eq!(get_index_path("/d/.."), Err(Error::InvalidPath("/d/..".to_string())));
    assert_eq!(get_index_path("."), Err(Error::InvalidPath(".".to_string())));
    assert_eq!(get_index_path("/"), Err(Error::InvalidPath("/".to_string())));
    assert_eq!(get_index_path("./"), Err(Error::InvalidPath("./".to_string())));
}

#[test]
fn index_path_reads_path_as_std_does() {
    for p in ["/d/test.db", "test.db", "/test.db", "d/", "d/.", "/a/b/", "a//b", "a/./b", "./b", "//b", "a/b/./"] {
        let path = std::path::Path::new(p);
        let expected = path
            .parent()
            .unwrap()
            .join(format!("{}.idx", path.file_name().unwrap().to_string_lossy()));
        assert_eq!(get_index_path(p).unwrap(), expected.to_string_lossy(), "{}", p);
    }
    for p in ["", "/", ".", "..", "a/..", "./", "/."] {
        let path = std::path::Path::new(p);
        assert!(path.parent().is_none() || path.file_name().is_none(), "{}", p);
        assert_eq!(get_index_path(p), Err(Error::InvalidPath(p.to_string())), "{}", p);
    }
}
