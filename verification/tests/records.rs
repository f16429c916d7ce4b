use rankless::records::merge_chunks;
use rankless::var_size::write_minimal;
use rankless::records::chunk_sort;

#[test]
fn ch_srt() {
    let a: Vec<u8> = vec![0, 1, 3, 10, 2, 5, 1, 20];
    let sorted = chunk_sort(a, &2);
    assert_eq!(sorted, vec![0, 1, 1, 20, 2, 5, 3, 10])
}

#[test]
fn ch_srt_eq() {
    let a: Vec<u8> = vec![0, 1, 0, 1];
    let sorted = chunk_sort(a, &2);
    assert_eq!(sorted, vec![0, 1])
}

#[test]
fn records_of_three_bytes_sort_by_their_bytes_and_repeat_once() {
    let a: Vec<u8> = vec![5, 0, 0, 1, 2, 3, 5, 0, 0, 1, 2, 2, 0, 0, 0];
    assert_eq!(chunk_sort(a, &3), vec![0, 0, 0, 1, 2, 2, 1, 2, 3, 5, 0, 0]);
    assert_eq!(chunk_sort(Vec::new(), &4), Vec::<u8>::new());
}

#[test]
fn merging_runs_takes_the_smaller_head_and_drops_a_repeat() {
    assert_eq!(merge_chunks(vec![0, 1, 3, 10], vec![1, 20, 2, 5], &2), vec![0, 1, 1, 20, 2, 5, 3, 10]);
    assert_eq!(merge_chunks(vec![0, 1], vec![0, 1], &2), vec![0, 1]);
    assert_eq!(merge_chunks(vec![], vec![7, 1, 2], &2), vec![7, 1, 2]);
    assert_eq!(merge_chunks(vec![9], vec![], &2), vec![9]);
    assert_eq!(merge_chunks(vec![5, 5, 6, 0], vec![5, 6], &2), vec![5, 5, 5, 6, 6, 0]);
}

#[test]
fn numbers_are_written_in_the_smallest_width_big_endian() {
    let (b, name) = write_minimal(&vec![1, 255], 255);
    assert_eq!((b, name.as_str()), (vec![1, 255], "u8"));
    let (b, name) = write_minimal(&vec![258, 3], 256);
    assert_eq!((b, name.as_str()), (vec![1, 2, 0, 3], "u16"));
    let (b, name) = write_minimal(&vec![0x0102_0304], 70_000);
    assert_eq!((b, name.as_str()), (vec![1, 2, 3, 4], "u32"));
    let (b, name) = write_minimal(&vec![1], 1usize << 40);
    assert_eq!((b, name.as_str()), (vec![0, 0, 0, 0, 0, 0, 0, 1], "u64"));
}

#[test]
fn merging_ascending_runs_gives_their_ascending_union() {
    assert_eq!(merge_chunks(vec![0, 1, 2, 5, 9, 9], vec![0, 1, 3, 10], &2), vec![0, 1, 2, 5, 3, 10, 9, 9]);
}
