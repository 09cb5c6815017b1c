use splimer::engine::{merge_fragments, split_bytes, MergeEngine, SplitMachine};

fn patterned(len: usize) -> Vec<u8> {
    (0..len).map(|i| (i % 251) as u8).collect()
}

#[test]
fn round_trip_with_a_remainder() {
    let data = patterned(10000);
    let frags = split_bytes(&data, 3334);
    assert_eq!(frags.len(), 3);
    assert_eq!(merge_fragments(&frags), data);
}

#[test]
fn round_trip_on_exact_boundaries() {
    let data = patterned(4096);
    let frags = split_bytes(&data, 1024);
    assert_eq!(frags.len(), 4);
    assert!(frags.iter().all(|f| f.len() == 1024));
    assert_eq!(merge_fragments(&frags), data);
}

#[test]
fn round_trip_of_a_tiny_file() {
    let data = patterned(10);
    let frags = split_bytes(&data, 1024);
    assert_eq!(frags.len(), 1);
    assert_eq!(merge_fragments(&frags), data);
}

#[test]
fn round_trip_of_an_empty_file() {
    let data: Vec<u8> = Vec::new();
    let frags = split_bytes(&data, 1024);
    assert_eq!(frags.len(), 0);
    assert_eq!(merge_fragments(&frags), data);
}

#[test]
fn three_parts_absorb_the_remainder_in_the_last() {
    let data = patterned(10000);
    let frags = split_bytes(&data, 3334);
    let sizes: Vec<usize> = frags.iter().map(|f| f.len()).collect();
    assert_eq!(sizes, vec![3334, 3334, 3332]);
}

#[test]
fn fragments_carry_the_right_bytes() {
    let data = patterned(10000);
    let frags = split_bytes(&data, 3334);
    assert_eq!(frags[0][..], data[..3334]);
    assert_eq!(frags[1][..], data[3334..6668]);
    assert_eq!(frags[2][..], data[6668..]);
}

#[test]
fn round_trip_across_the_read_buffer() {
    // the fragment is larger than one read buffer and no multiple of it,
    // so a read chunk straddles a fragment boundary
    let data = patterned(2_500_000);
    let frags = split_bytes(&data, 1_500_000);
    let sizes: Vec<usize> = frags.iter().map(|f| f.len()).collect();
    assert_eq!(sizes, vec![1_500_000, 1_000_000]);
    assert_eq!(merge_fragments(&frags), data);
}

#[test]
fn a_chunk_straddles_two_fragments() {
    let mut machine = SplitMachine::new(10, 25);
    let step = machine.consume_chunk(7);
    assert_eq!(step.take, 7);
    assert!(!step.close_current);
    assert!(!step.open_next);
    let step = machine.consume_chunk(7);
    assert_eq!(step.take, 3);
    assert!(step.close_current);
    assert!(step.open_next);
    assert_eq!(machine.fragment_number, 2);
    assert_eq!(machine.fragment_fill, 4);
    let step = machine.consume_chunk(6);
    assert_eq!(step.take, 6);
    assert!(step.close_current);
    assert!(step.open_next);
    assert_eq!(machine.fragment_number, 3);
    assert_eq!(machine.fragment_fill, 0);
    let step = machine.consume_chunk(5);
    assert_eq!(step.take, 5);
    assert!(!step.close_current);
    assert_eq!(machine.consumed, 25);
}

#[test]
fn the_last_exact_fragment_opens_no_next_file() {
    let mut machine = SplitMachine::new(10, 20);
    let step = machine.consume_chunk(10);
    assert!(step.close_current);
    assert!(step.open_next);
    let step = machine.consume_chunk(10);
    assert!(step.close_current);
    assert!(!step.open_next);
    assert_eq!(machine.fragment_number, 2);
}

#[test]
fn merge_stops_at_the_first_missing_fragment() {
    // the directory holds fragments 1 and 2; 3 is missing
    let frag1 = patterned(1024);
    let frag2 = patterned(100);
    let mut engine = MergeEngine::new("data/file.bin".to_string(), None);
    let mut collected: Vec<Vec<u8>> = Vec::new();
    loop {
        let path = engine.next_fragment_path();
        let found = match path.as_str() {
            "data/file_[1].splm" => Some(frag1.clone()),
            "data/file_[2].splm" => Some(frag2.clone()),
            _ => None,
        };
        match found {
            Some(bytes) => {
                engine.fragment_found(bytes.len());
                collected.push(bytes);
            }
            None => {
                let none_found = engine.fragment_missing();
                assert!(!none_found);
                break;
            }
        }
    }
    assert_eq!(engine.next_index, 3);
    assert_eq!(engine.bytes_written, 1124);
    let merged = merge_fragments(&collected);
    let mut expected = frag1.clone();
    expected.extend_from_slice(&frag2);
    assert_eq!(merged, expected);
}

#[test]
fn merge_of_no_fragments_at_all_is_reported() {
    let mut engine = MergeEngine::new("file.bin".to_string(), None);
    let path = engine.next_fragment_path();
    assert_eq!(path, "file_[1].splm");
    let none_found = engine.fragment_missing();
    assert!(none_found);
}

#[test]
fn merge_keeps_fragment_order() {
    let frags = vec![vec![1u8, 2], vec![3u8], vec![4u8, 5, 6]];
    assert_eq!(merge_fragments(&frags), vec![1u8, 2, 3, 4, 5, 6]);
}
