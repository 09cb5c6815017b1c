use splimer::cli::ProgramInput;
use splimer::plan::{part_byte_range, plan, Plan};

fn config(fragment_size: usize, parts: Option<usize>, part_number: Option<usize>) -> ProgramInput {
    ProgramInput {
        to_split: true,
        input_filename: "file.bin".to_string(),
        fragment_size,
        output_directory: None,
        parts,
        part_number,
    }
}

#[test]
fn three_parts_of_ten_thousand_bytes() {
    let p = plan(&config(1073741824, Some(3), None), 10000);
    assert_eq!(p, Plan::Split { fragment_size: 3334, total_parts: 3 });
}

#[test]
fn parts_override_an_explicit_fragment_size() {
    let p = plan(&config(4096, Some(2), None), 10000);
    assert_eq!(p, Plan::Split { fragment_size: 5000, total_parts: 2 });
}

#[test]
fn small_file_skips_the_run() {
    let p = plan(&config(2048, None, None), 1000);
    assert_eq!(p, Plan::Skip);
}

#[test]
fn file_of_exactly_one_fragment_is_split() {
    let p = plan(&config(2048, None, None), 2048);
    assert_eq!(p, Plan::Split { fragment_size: 2048, total_parts: 1 });
}

#[test]
fn too_many_parts_make_the_fragments_too_small() {
    let p = plan(&config(1073741824, Some(3), None), 1500);
    assert_eq!(p, Plan::FragmentSizeTooSmall { minimum: 1024 });
}

#[test]
fn part_number_beyond_the_last_part_is_refused() {
    let p = plan(&config(1024, None, Some(4)), 3072);
    assert_eq!(p, Plan::PartNumberOutOfRange { requested: 4, total_parts: 3 });
}

#[test]
fn part_number_of_the_last_part_is_accepted() {
    let p = plan(&config(1024, None, Some(3)), 3072);
    assert_eq!(p, Plan::Split { fragment_size: 1024, total_parts: 3 });
}

#[test]
fn byte_range_of_a_middle_part() {
    assert_eq!(part_byte_range(10000, 3334, 1), (0, 3334));
    assert_eq!(part_byte_range(10000, 3334, 2), (3334, 6668));
}

#[test]
fn byte_range_of_the_last_part_ends_at_the_file() {
    assert_eq!(part_byte_range(10000, 3334, 3), (6668, 10000));
}
