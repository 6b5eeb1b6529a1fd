use xmrtrace::{cn_txgraph_maximum_matching, dm_decomposition, CscGraph, Error, UNMATCHED};

fn graph(num_rows: usize, columns: &[&[u32]]) -> CscGraph {
    let mut col_ptr = vec![0usize];
    let mut row_idx = Vec::new();
    for column in columns {
        row_idx.extend_from_slice(column);
        col_ptr.push(row_idx.len());
    }
    CscGraph { num_rows, num_cols: columns.len(), col_ptr, row_idx }
}

fn matched(mates: &[u32]) -> usize {
    mates.iter().filter(|m| **m != UNMATCHED).count()
}

#[test]
fn matching_of_a_graph_without_columns_is_empty() {
    let mates = cn_txgraph_maximum_matching(&graph(3, &[]));
    assert_eq!(mates, vec![UNMATCHED, UNMATCHED, UNMATCHED]);
}

#[test]
fn matching_takes_the_first_free_row() {
    let mates = cn_txgraph_maximum_matching(&graph(2, &[&[0, 1]]));
    assert_eq!(mates, vec![0, UNMATCHED]);
}

#[test]
fn matching_flips_an_augmenting_path() {
    // Column 0 takes row 0; column 1 has only row 0, so column 0 must move
    // to row 1.
    let mates = cn_txgraph_maximum_matching(&graph(2, &[&[0, 1], &[0]]));
    assert_eq!(mates, vec![1, 0]);
}

#[test]
fn matching_flips_a_path_of_three_columns() {
    // Rows 0..3, columns 0: {0, 1}, 1: {0, 2}, 2: {0}.
    let mates = cn_txgraph_maximum_matching(&graph(3, &[&[0, 1], &[0, 2], &[0]]));
    assert_eq!(matched(&mates), 3);
    assert_eq!(mates, vec![2, 0, 1]);
}

#[test]
fn matching_leaves_a_column_out_when_rows_are_short() {
    let mates = cn_txgraph_maximum_matching(&graph(1, &[&[0], &[0]]));
    assert_eq!(mates, vec![0]);
}

#[test]
fn matching_is_maximum_on_a_graph_where_greedy_fails() {
    // Columns 0: {0, 1}, 1: {1, 2}, 2: {0}, 3: {2, 3}; a perfect matching
    // exists: 2-0, 0-1, 1-2, 3-3.
    let mates = cn_txgraph_maximum_matching(&graph(4, &[&[0, 1], &[1, 2], &[0], &[2, 3]]));
    assert_eq!(matched(&mates), 4);
    assert_eq!(mates[0], 2);
    assert_eq!(mates[3], 3);
}

#[test]
fn dm_holds_the_graph_in_both_sparse_forms() {
    // Edges given out of order and with a repetition.
    let pks = vec![2, 0, 1, 0, 2];
    let kis = vec![1, 0, 0, 1, 1];
    let dm = dm_decomposition(3, 2, &pks, &kis).unwrap();
    assert_eq!(dm.columns.num_rows, 3);
    assert_eq!(dm.columns.num_cols, 2);
    assert_eq!(dm.columns.col_ptr, vec![0, 2, 4]);
    assert_eq!(dm.columns.row_idx, vec![0, 1, 0, 2]);
    assert_eq!(dm.rows.num_rows, 3);
    assert_eq!(dm.rows.num_cols, 2);
    assert_eq!(dm.rows.row_ptr, vec![0, 2, 3, 4]);
    assert_eq!(dm.rows.col_idx, vec![0, 1, 0, 1]);
}

#[test]
fn dm_refuses_lists_of_different_lengths() {
    assert_eq!(dm_decomposition(2, 2, &vec![0, 1], &vec![0]).err(), Some(Error::Inconsistency));
}

#[test]
fn dm_refuses_an_index_outside_the_shape() {
    assert_eq!(dm_decomposition(2, 2, &vec![2], &vec![0]).err(), Some(Error::Inconsistency));
    assert_eq!(dm_decomposition(2, 2, &vec![0], &vec![2]).err(), Some(Error::Inconsistency));
}

#[test]
fn dm_refuses_a_graph_that_leaves_a_key_image_unmatched() {
    // Two key images share one public key.
    assert_eq!(
        dm_decomposition(1, 2, &vec![0, 0], &vec![0, 1]).err(),
        Some(Error::Inconsistency)
    );
}

#[test]
fn dm_traces_through_a_chain() {
    // ki 0: {0}, ki 1: {0, 1}, ki 2: {1, 2}: every block is a single pair.
    let pks = vec![0, 0, 1, 1, 2];
    let kis = vec![0, 1, 1, 2, 2];
    let dm = dm_decomposition(3, 3, &pks, &kis).unwrap();
    assert_eq!(dm.num_matched_pks, 3);
    assert_eq!(dm.num_unreachable_pubkeys, 3);
    assert_eq!(dm.num_unreachable_keyimages, 3);
    let mut blocks = dm.closed_sets.clone();
    blocks.sort();
    assert_eq!(blocks, vec![(vec![0], vec![0]), (vec![1], vec![1]), (vec![2], vec![2])]);
}
