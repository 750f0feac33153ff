use ai_training::model::{
    causal_mask, decode, encode, heads_divide, moore_adjacency_data, moore_offsets, num_cells,
};

#[test]
fn heads_must_divide_the_width() {
    assert!(heads_divide(384, 6));
    assert!(!heads_divide(384, 7));
}

#[test]
fn attention_looks_back() {
    assert_eq!(
        causal_mask(3),
        vec![false, true, true, false, false, true, false, false, false]
    );
    assert!(causal_mask(0).is_empty());
}

#[test]
fn cells_are_counted() {
    assert_eq!(num_cells(5, 3), Some(243));
    assert_eq!(num_cells(0, 7), Some(1));
    assert_eq!(num_cells(3, 0), Some(0));
    assert_eq!(num_cells(64, 2), None);
    assert_eq!(num_cells(1000, 1), Some(1));
}

#[test]
fn coordinates_and_cells_undo_each_other() {
    assert_eq!(decode(23, 3, 4), vec![3, 1, 1]);
    assert_eq!(encode(&vec![3, 1, 1], 4), 23);
    for i in 0..64 {
        assert_eq!(encode(&decode(i, 3, 4), 4), i);
    }
}

#[test]
fn offsets_are_all_but_zero() {
    assert_eq!(moore_offsets(1), vec![vec![-1], vec![1]]);
    assert_eq!(moore_offsets(2)[0], vec![-1, -1]);
    assert_eq!(moore_offsets(2).len(), 8);
    assert_eq!(moore_offsets(5).len(), 242);
    assert!(moore_offsets(0).is_empty());
}

#[test]
fn a_ring_of_four_has_two_neighbors_each() {
    let a = moore_adjacency_data(1, 4);
    assert_eq!(a.cells, 4);
    assert_eq!(
        a.counts,
        vec![0, 1, 0, 1, 1, 0, 1, 0, 0, 1, 0, 1, 1, 0, 1, 0]
    );
    assert_eq!(a.totals, vec![2, 2, 2, 2]);
}

#[test]
fn small_sides_wrap_onto_themselves() {
    let a = moore_adjacency_data(1, 2);
    assert_eq!(a.counts, vec![0, 2, 2, 0]);
    assert_eq!(a.totals, vec![2, 2]);
    let a = moore_adjacency_data(2, 1);
    assert_eq!(a.counts, vec![0]);
    assert_eq!(a.totals, vec![0]);
    let a = moore_adjacency_data(2, 0);
    assert_eq!(a.cells, 0);
    assert!(a.counts.is_empty());
}

#[test]
fn side_three_connects_all() {
    let a = moore_adjacency_data(2, 3);
    for i in 0..9 {
        for j in 0..9 {
            assert_eq!(a.counts[i * 9 + j], usize::from(i != j));
        }
        assert_eq!(a.totals[i], 8);
    }
}

#[test]
fn larger_sides_are_local_and_mutual() {
    let a = moore_adjacency_data(2, 5);
    let near = |x: usize, y: usize| (x + 5 - y) % 5 <= 1 || (y + 5 - x) % 5 <= 1;
    for i in 0..25 {
        for j in 0..25 {
            let touch = near(i % 5, j % 5) && near(i / 5, j / 5);
            assert_eq!(a.counts[i * 25 + j], usize::from(i != j && touch));
            assert_eq!(a.counts[i * 25 + j], a.counts[j * 25 + i]);
        }
        assert_eq!(a.totals[i], 8);
    }
}

#[test]
fn counts_are_mutual_with_two_cells_per_axis() {
    let a = moore_adjacency_data(3, 2);
    for i in 0..8usize {
        for j in 0..8usize {
            let differing = (i ^ j).count_ones();
            let ways = if i == j { 0 } else { 1 << differing };
            assert_eq!(a.counts[i * a.cells + j], ways);
            assert_eq!(a.counts[i * a.cells + j], a.counts[j * a.cells + i]);
        }
        assert_eq!(a.totals[i], 26);
    }
}
