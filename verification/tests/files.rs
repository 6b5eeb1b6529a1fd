use std::collections::HashSet;
use xmrtrace::{
    read_edges, read_rings, rings_from_edges, write_edges, write_ring_sets, write_rings, Error,
};

fn set(items: &[u32]) -> HashSet<u32> {
    items.iter().copied().collect()
}

#[test]
fn edges_are_read_in_the_order_of_the_lines() {
    let (pks, kis, max_pk, max_ki) = read_edges(b"0 5\n3 1\n2 9\n").unwrap();
    assert_eq!(kis, vec![0, 3, 2]);
    assert_eq!(pks, vec![5, 1, 9]);
    assert_eq!(max_pk, 9);
    assert_eq!(max_ki, 3);
}

#[test]
fn empty_edge_text_gives_no_edges() {
    assert_eq!(read_edges(b"").unwrap(), (vec![], vec![], 0, 0));
}

#[test]
fn last_edge_line_need_not_end_in_a_line_feed() {
    assert_eq!(read_edges(b"1 2").unwrap(), (vec![2], vec![1], 2, 1));
}

#[test]
fn repeated_edge_lines_give_repeated_edges() {
    let (pks, kis, _, _) = read_edges(b"0 0\n0 0\n0 1\n").unwrap();
    assert_eq!(kis, vec![0, 0, 0]);
    assert_eq!(pks, vec![0, 0, 1]);
}

#[test]
fn trailing_tokens_of_an_edge_line_are_ignored() {
    assert_eq!(read_edges(b"4 7 anything else\n").unwrap(), (vec![7], vec![4], 7, 4));
}

#[test]
fn white_space_around_an_edge_line_is_ignored() {
    assert_eq!(read_edges(b"  4 7\t\r\n").unwrap(), (vec![7], vec![4], 7, 4));
}

#[test]
fn empty_lines_at_the_end_of_an_edge_text_are_passed_over() {
    assert_eq!(read_edges(b"4 7\n\n\n").unwrap(), (vec![7], vec![4], 7, 4));
    assert_eq!(read_edges(b"4 7\n  \n\n").unwrap(), (vec![7], vec![4], 7, 4));
}

#[test]
fn empty_line_between_edges_is_malformed() {
    assert_eq!(read_edges(b"4 7\n\n1 2\n").err(), Some(Error::MalformedEdge));
}

#[test]
fn edge_line_of_one_field_is_malformed() {
    assert_eq!(read_edges(b"4\n").err(), Some(Error::MalformedEdge));
}

#[test]
fn edge_line_with_two_spaces_is_malformed() {
    assert_eq!(read_edges(b"4  7\n").err(), Some(Error::MalformedEdge));
}

#[test]
fn edge_that_is_no_number_is_malformed() {
    assert_eq!(read_edges(b"a 7\n").err(), Some(Error::MalformedEdge));
    assert_eq!(read_edges(b"4 -7\n").err(), Some(Error::MalformedEdge));
    assert_eq!(read_edges(b"4 7x\n").err(), Some(Error::MalformedEdge));
}

#[test]
fn edge_numbers_fit_thirty_two_bits() {
    assert_eq!(
        read_edges(b"4294967295 0\n").unwrap(),
        (vec![0], vec![4294967295], 0, 4294967295)
    );
    assert_eq!(read_edges(b"4294967296 0\n").err(), Some(Error::MalformedEdge));
    assert_eq!(read_edges(b"0 99999999999999999999999\n").err(), Some(Error::MalformedEdge));
    assert_eq!(read_edges(b"0000000000000000000007 1\n").unwrap(), (vec![1], vec![7], 1, 7));
}

#[test]
fn rings_are_built_from_edges() {
    let (rings, pk_to_ki) = rings_from_edges(2, 3, &vec![0, 1, 0], &vec![2, 2, 0]).unwrap();
    assert_eq!(rings, vec![set(&[0, 2]), set(&[2])]);
    assert_eq!(pk_to_ki, vec![vec![0], vec![], vec![0, 1]]);
}

#[test]
fn edges_outside_the_numbers_given_are_inconsistent() {
    assert_eq!(rings_from_edges(1, 1, &vec![1], &vec![0]).err(), Some(Error::Inconsistency));
    assert_eq!(rings_from_edges(1, 1, &vec![0], &vec![1]).err(), Some(Error::Inconsistency));
    assert_eq!(rings_from_edges(1, 1, &vec![0, 0], &vec![0]).err(), Some(Error::Inconsistency));
}

#[test]
fn ring_text_is_read() {
    let (rings, pk_to_ki) = read_rings(b"3 4\n0 1 3\n1\n2 3 0\n").unwrap();
    assert_eq!(rings, vec![vec![1, 3], vec![], vec![3, 0]]);
    assert_eq!(pk_to_ki, vec![vec![2], vec![0], vec![], vec![0, 2]]);
}

#[test]
fn empty_ring_text_gives_nothing() {
    assert_eq!(read_rings(b"").unwrap(), (vec![], vec![]));
    assert_eq!(read_rings(b"\n\n").unwrap(), (vec![], vec![]));
}

#[test]
fn ring_text_without_key_images_gives_empty_lists() {
    assert_eq!(read_rings(b"0 2\n").unwrap(), (vec![], vec![vec![], vec![]]));
}

#[test]
fn ring_that_repeats_a_public_key_names_its_key_image_twice() {
    let (rings, pk_to_ki) = read_rings(b"1 1\n0 0 0\n").unwrap();
    assert_eq!(rings, vec![vec![0, 0]]);
    assert_eq!(pk_to_ki, vec![vec![0, 0]]);
}

#[test]
fn ring_header_of_one_number_is_malformed() {
    assert_eq!(read_rings(b"3\n").err(), Some(Error::MalformedRing));
    assert_eq!(read_rings(b"x 3\n").err(), Some(Error::MalformedRing));
}

#[test]
fn ring_text_with_a_missing_line_is_malformed() {
    assert_eq!(read_rings(b"2 2\n0 1\n").err(), Some(Error::MalformedRing));
}

#[test]
fn ring_text_with_a_line_too_many_is_malformed() {
    assert_eq!(read_rings(b"1 2\n0 1\n1 0\n").err(), Some(Error::MalformedRing));
}

#[test]
fn ring_lines_out_of_order_are_malformed() {
    assert_eq!(read_rings(b"2 2\n1 0\n0 1\n").err(), Some(Error::MalformedRing));
}

#[test]
fn ring_with_a_public_key_beyond_their_number_is_malformed() {
    assert_eq!(read_rings(b"1 2\n0 2\n").err(), Some(Error::MalformedRing));
}

#[test]
fn ring_with_a_field_that_is_no_number_is_malformed() {
    assert_eq!(read_rings(b"1 2\n0 x\n").err(), Some(Error::MalformedRing));
    assert_eq!(read_rings(b"1 2\n0  1\n").err(), Some(Error::MalformedRing));
}

#[test]
fn rings_are_written_line_by_line() {
    let text = write_rings(&vec![vec![1, 3], vec![], vec![30, 0]], 31);
    assert_eq!(text, b"3 31\n0 1 3\n1\n2 30 0\n".to_vec());
}

#[test]
fn no_rings_are_written_as_a_header_alone() {
    assert_eq!(write_rings(&vec![], 0), b"0 0\n".to_vec());
}

#[test]
fn large_numbers_are_written_in_full() {
    let text = write_rings(&vec![vec![4294967295, 10, 109]], 4294967296);
    assert_eq!(text, b"1 4294967296\n0 4294967295 10 109\n".to_vec());
}

#[test]
fn ring_sets_are_written_in_ascending_order() {
    let text = write_ring_sets(&vec![set(&[7, 3, 11]), set(&[]), set(&[2])], 12);
    assert_eq!(text, b"3 12\n0 3 7 11\n1\n2 2\n".to_vec());
}

#[test]
fn edges_are_written_one_to_a_line() {
    let text = write_edges(vec![set(&[5, 2]), set(&[]), set(&[0])]);
    assert_eq!(text, b"0 2\n0 5\n2 0\n".to_vec());
}

#[test]
fn written_rings_are_read_back() {
    let rings = vec![vec![2, 0], vec![], vec![1], vec![0, 1, 2]];
    let text = write_rings(&rings, 3);
    let (read, pk_to_ki) = read_rings(&text).unwrap();
    assert_eq!(read, rings);
    assert_eq!(pk_to_ki, vec![vec![0, 3], vec![2, 3], vec![0, 3]]);
    assert_eq!(write_rings(&read, 3), text);
}

#[test]
fn written_edges_are_read_back() {
    let text = write_edges(vec![set(&[1, 0]), set(&[1])]);
    let (pks, kis, max_pk, max_ki) = read_edges(&text).unwrap();
    assert_eq!(kis, vec![0, 0, 1]);
    assert_eq!(pks, vec![0, 1, 1]);
    assert_eq!((max_pk, max_ki), (1, 1));
}

#[test]
fn closed_set_sizes_are_written_on_one_line() {
    let sets = vec![(vec![4, 5], vec![0, 1]), (vec![9], vec![2]), (vec![1, 2, 3], vec![7, 8, 9])];
    assert_eq!(xmrtrace::write_closed_set_sizes(&sets), b"2 1 3\n".to_vec());
    assert_eq!(xmrtrace::write_closed_set_sizes(&vec![]), b"\n".to_vec());
}

#[test]
fn fine_decomposition_is_written_block_by_block() {
    let sets = vec![(vec![4, 5], vec![0, 1]), (vec![9], vec![12])];
    assert_eq!(
        xmrtrace::write_fine_decomposition(&sets),
        b"2\n2\n0 1\n4 5\n1\n12\n9\n".to_vec()
    );
    assert_eq!(xmrtrace::write_fine_decomposition(&vec![]), b"0\n".to_vec());
}

#[test]
fn ring_sizes_are_counted_by_size() {
    let sizes = vec![1, 3, 1, 11, 10, 0, 250, 2];
    assert_eq!(
        xmrtrace::ring_size_histogram(&sizes, 10),
        vec![2, 1, 1, 0, 0, 0, 0, 0, 0, 1, 2]
    );
    assert_eq!(xmrtrace::ring_size_histogram(&vec![], 2), vec![0, 0, 0]);
    assert_eq!(xmrtrace::ring_size_histogram(&vec![5, 1], 0), vec![2]);
}

#[test]
fn traced_rings_are_counted_by_their_size_before() {
    let before = vec![1, 3, 3, 11, 2];
    let after = vec![1, 1, 2, 1, 1];
    assert_eq!(xmrtrace::traced_ring_histogram(&before, &after, 3), vec![1, 1, 1, 1]);
}
