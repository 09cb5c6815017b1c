use splimer::names::{fragment_path, merged_path, usize_to_string};

fn frag(pattern: &str, outdir: Option<&str>, index: usize) -> String {
    fragment_path(
        &pattern.to_string(),
        &outdir.map(|d| d.to_string()),
        index,
    )
}

#[test]
fn fragment_beside_the_input() {
    assert_eq!(frag("dir/archive.tar", None, 1), "dir/archive_[1].splm");
}

#[test]
fn fragment_of_a_bare_filename() {
    assert_eq!(frag("archive.tar", None, 12), "archive_[12].splm");
}

#[test]
fn fragment_in_the_output_directory() {
    assert_eq!(frag("/data/a.bin", Some("out"), 3), "out/a_[3].splm");
}

#[test]
fn output_directory_with_trailing_slash() {
    assert_eq!(frag("a.bin", Some("out/"), 3), "out/a_[3].splm");
}

#[test]
fn fragment_under_the_root() {
    assert_eq!(frag("/a.bin", None, 1), "/a_[1].splm");
}

#[test]
fn fragment_without_an_extension() {
    assert_eq!(frag("noext", None, 2), "noext_[2].splm");
}

#[test]
fn only_the_last_extension_is_stripped() {
    assert_eq!(frag("x/a.b.c", None, 1), "x/a.b_[1].splm");
}

#[test]
fn hidden_file_keeps_its_name() {
    assert_eq!(frag("d/.config", None, 1), "d/.config_[1].splm");
}

#[test]
fn merged_output_beside_the_input() {
    assert_eq!(
        merged_path(&"dir/archive.tar".to_string()),
        "dir/archive_[merged].tar"
    );
}

#[test]
fn merged_output_keeps_the_last_extension() {
    assert_eq!(merged_path(&"a.b.c".to_string()), "a.b_[merged].c");
}

#[test]
fn decimal_rendering() {
    assert_eq!(usize_to_string(0), "0");
    assert_eq!(usize_to_string(7), "7");
    assert_eq!(usize_to_string(907), "907");
    assert_eq!(usize_to_string(120045), "120045");
}
