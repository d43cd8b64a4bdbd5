use tree_manipulation::path::path_components;

fn split(path: &str) -> Vec<String> {
    path_components(path.as_bytes())
        .into_iter()
        .map(|component| String::from_utf8(component).unwrap())
        .collect()
}

#[test]
fn a_path_without_slash_is_one_component() {
    assert_eq!(split("a.txt"), vec!["a.txt"]);
    assert_eq!(split(""), vec![""]);
}

#[test]
fn components_stand_between_slashes() {
    assert_eq!(split("a/b/c.txt"), vec!["a", "b", "c.txt"]);
    assert_eq!(split("dir/file"), vec!["dir", "file"]);
}

#[test]
fn slashes_at_the_ends_and_in_a_row_give_empty_components() {
    assert_eq!(split("/a"), vec!["", "a"]);
    assert_eq!(split("a/"), vec!["a", ""]);
    assert_eq!(split("a//b"), vec!["a", "", "b"]);
    assert_eq!(split("/"), vec!["", ""]);
}

#[test]
fn components_are_bytes() {
    assert_eq!(
        path_components(b"\xff\x00/\x80"),
        vec![b"\xff\x00".to_vec(), b"\x80".to_vec()]
    );
}
