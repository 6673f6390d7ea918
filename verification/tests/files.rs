use toolbox::filesystem::{
    folder_size, folder_size_excluding, get_file_containing_folder, get_file_extension,
    get_file_name_without_extension, get_files_in_folder, is_wanted_extension, needs_generation,
    path_in_folder, read_lines_except_comment, read_xml_string, replace_extension,
    replace_file_extension, should_exclude, text_of_node, to_file_uri, Item, XmlPiece,
};

#[test]
fn uris_use_forward_slashes() {
    assert_eq!(to_file_uri("a\\b", None), "file:///a/b");
    assert_eq!(to_file_uri("a\\b", Some("C:\\x\\y.txt")), "file:///C:/x/y.txt");
    assert_eq!(to_file_uri("/tmp/x", None), "file:////tmp/x");
}

#[test]
fn extensions_are_what_follows_the_last_dot() {
    assert_eq!(get_file_extension("dir/foo.rs"), Some("rs"));
    assert_eq!(get_file_extension("dir/foo.tar.gz"), Some("gz"));
    assert_eq!(get_file_extension("foo"), None);
    assert_eq!(get_file_extension(".bashrc"), None);
    assert_eq!(get_file_extension("dir/.bash.rc"), Some("rc"));
    assert_eq!(get_file_extension("foo."), Some(""));
    assert_eq!(get_file_extension("dir.d/foo"), None);
    assert_eq!(get_file_extension("foo.txt/.//"), Some("txt"));
    assert_eq!(get_file_extension("foo.txt/.."), None);
    assert_eq!(get_file_extension(""), None);
}

#[test]
fn stems_are_names_without_extension() {
    assert_eq!(get_file_name_without_extension("dir/foo.rs"), Some("foo".to_string()));
    assert_eq!(
        get_file_name_without_extension("foo.tar.gz"),
        Some("foo.tar".to_string())
    );
    assert_eq!(
        get_file_name_without_extension(".bashrc"),
        Some(".bashrc".to_string())
    );
    assert_eq!(get_file_name_without_extension("dir/"), Some("dir".to_string()));
    assert_eq!(get_file_name_without_extension(".."), None);
    assert_eq!(get_file_name_without_extension("/"), None);
}

#[test]
fn extensions_are_replaced() {
    assert_eq!(replace_file_extension("dir/foo.rs", "txt"), "dir/foo.txt");
    assert_eq!(replace_file_extension("dir/foo", "txt"), "dir/foo.txt");
    assert_eq!(replace_file_extension("dir/foo.tar.gz", ""), "dir/foo.tar");
    assert_eq!(replace_file_extension("dir/..", "txt"), "dir/..");
    assert_eq!(replace_extension("/feel/the.dark".to_string(), "force"), "/feel/the.force");
    assert_eq!(replace_extension(".hidden".to_string(), "b"), ".hidden.b");
}

#[test]
fn a_replaced_extension_is_found_again() {
    let path = replace_file_extension("a/b.c", "d");
    assert_eq!(get_file_extension(&path), Some("d"));
    assert_eq!(get_file_name_without_extension(&path), Some("b".to_string()));
    assert_eq!(get_file_containing_folder(&path), Some("a".to_string()));
}

#[test]
fn folders_are_paths_without_the_last_component() {
    assert_eq!(get_file_containing_folder("a/b/c.txt"), Some("a/b".to_string()));
    assert_eq!(get_file_containing_folder("/foo"), Some("/".to_string()));
    assert_eq!(get_file_containing_folder("foo"), Some("".to_string()));
    assert_eq!(get_file_containing_folder(""), None);
    assert_eq!(get_file_containing_folder("/"), None);
}

#[test]
fn absolute_files_stay_where_they_are() {
    assert_eq!(path_in_folder("a", "/b"), "/b");
    let joined = path_in_folder("a", "b");
    assert!(joined == "a/b" || joined == "a\\b");
}

#[test]
fn no_separator_is_doubled() {
    assert_eq!(path_in_folder("", "b"), "b");
    assert_eq!(path_in_folder("a/", "b"), "a/b");
    assert_eq!(path_in_folder("/", "b/c"), "/b/c");
}

fn sample() -> Vec<Item> {
    vec![
        Item::File(10),
        Item::Folder(
            Some("target".to_string()),
            vec![Item::File(1000), Item::Folder(None, vec![Item::File(1)])],
        ),
        Item::Folder(
            Some("src".to_string()),
            vec![Item::File(5), Item::Folder(Some("target".to_string()), vec![Item::File(7)])],
        ),
        Item::Other,
    ]
}

#[test]
fn folder_sizes_add_up() {
    assert_eq!(folder_size(&sample()), Some(1023));
    assert_eq!(folder_size(&vec![]), Some(0));
}

#[test]
fn excluded_folders_do_not_count() {
    assert_eq!(folder_size_excluding(&sample(), &["target"]), Some(15));
    assert_eq!(folder_size_excluding(&sample(), &["target", "src"]), Some(10));
    assert_eq!(folder_size_excluding(&sample(), &[]), Some(1023));
    assert_eq!(folder_size_excluding(&sample(), &["other"]), Some(1023));
}

#[test]
fn a_size_that_does_not_fit_is_none() {
    assert_eq!(folder_size(&vec![Item::File(u64::MAX)]), Some(u64::MAX));
    assert_eq!(folder_size(&vec![Item::File(u64::MAX), Item::File(1)]), None);
}

#[test]
fn names_are_excluded_exactly() {
    assert!(should_exclude(Some(".git"), &["target", ".git"]));
    assert!(!should_exclude(Some("git"), &["target", ".git"]));
    assert!(!should_exclude(None, &["target"]));
}

#[test]
fn files_are_selected_by_extension() {
    let entries = vec![
        ("d/a.rs".to_string(), true),
        ("d/b.rs".to_string(), false),
        ("d/c.txt".to_string(), true),
        ("d/e".to_string(), true),
        ("d/f.rs".to_string(), true),
    ];
    assert_eq!(get_files_in_folder(&entries, "rs"), vec!["d/a.rs", "d/f.rs"]);
    assert_eq!(get_files_in_folder(&entries, ".rs"), vec!["d/a.rs", "d/f.rs"]);
    assert_eq!(get_files_in_folder(&entries, "txt"), vec!["d/c.txt"]);
    assert!(get_files_in_folder(&entries, "").is_empty());
}

#[test]
fn extensions_are_wanted_with_or_without_dot() {
    assert!(is_wanted_extension(Some("rs"), "rs"));
    assert!(is_wanted_extension(Some("rs"), ".rs"));
    assert!(!is_wanted_extension(Some("rs"), "..rs"));
    assert!(!is_wanted_extension(None, ""));
}

#[test]
fn comment_lines_are_left_out() {
    let text = "a\n// b\r\nc\r\n /// d\n\n//\ne\r";
    assert_eq!(
        read_lines_except_comment(text),
        vec!["a", "c", " /// d", "", "e\r"]
    );
    assert!(read_lines_except_comment("").is_empty());
    assert_eq!(read_lines_except_comment("x\n"), vec!["x"]);
    assert_eq!(read_lines_except_comment("\n"), vec![""]);
    assert_eq!(read_lines_except_comment("/"), vec!["/"]);
}

#[test]
fn the_text_of_an_element_is_read() {
    let xml = b"<?xml version=\"1.0\"?><r><v>1.0</v><p:n xmlns:p=\"u\">x &amp; y</p:n></r>";
    assert_eq!(read_xml_string(xml, "v"), Some("1.0".to_string()));
    assert_eq!(read_xml_string(xml, "n"), Some("x & y".to_string()));
    assert_eq!(read_xml_string(xml, "r"), Some("1.0x & y".to_string()));
    assert_eq!(read_xml_string(xml, "q"), None);
}

#[test]
fn broken_documents_count_up_to_the_error() {
    assert_eq!(read_xml_string(b"<r><v>1</v><w>2", "v"), Some("1".to_string()));
    assert_eq!(read_xml_string(b"<r><v>1</v><w>2", "w"), None);
    assert_eq!(read_xml_string(b"", "v"), None);
    assert_eq!(read_xml_string(b"no xml", "v"), None);
}

#[test]
fn an_inner_start_tag_begins_the_text_anew() {
    let pieces = vec![
        XmlPiece::Text("before".to_string()),
        XmlPiece::Start("v".to_string()),
        XmlPiece::Text("a".to_string()),
        XmlPiece::Start("x".to_string()),
        XmlPiece::Text("b".to_string()),
        XmlPiece::Other,
        XmlPiece::End("x".to_string()),
        XmlPiece::Text("c".to_string()),
        XmlPiece::End("v".to_string()),
    ];
    assert_eq!(text_of_node(&pieces, "v"), Some("abc".to_string()));
    assert_eq!(text_of_node(&pieces, "x"), Some("b".to_string()));
    assert_eq!(text_of_node(&pieces, "y"), None);
    let nested = vec![
        XmlPiece::Start("v".to_string()),
        XmlPiece::Text("a".to_string()),
        XmlPiece::Start("v".to_string()),
        XmlPiece::Text("b".to_string()),
        XmlPiece::End("v".to_string()),
        XmlPiece::End("v".to_string()),
    ];
    assert_eq!(text_of_node(&nested, "v"), Some("b".to_string()));
}

#[test]
fn outputs_are_made_again_when_inputs_are_newer() {
    assert!(needs_generation(None));
    assert!(needs_generation(Some((2, 1))));
    assert!(!needs_generation(Some((1, 1))));
    assert!(!needs_generation(Some((-5, 1))));
}
