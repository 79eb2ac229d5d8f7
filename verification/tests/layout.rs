use lut_core::layout::{cell_offset, corner_offsets, corner_offsets_checked, grid_cells, table_entries};

#[test]
fn table_entries_counts_three_channels_per_cell() {
    assert_eq!(table_entries(0), Some(0));
    assert_eq!(table_entries(1), Some(3));
    assert_eq!(table_entries(2), Some(24));
    assert_eq!(table_entries(33), Some(33 * 33 * 33 * 3));
}

#[test]
fn table_entries_refuses_sizes_that_overflow() {
    assert_eq!(table_entries(usize::MAX), None);
    assert_eq!(table_entries(1usize << 32), None);
    if usize::BITS == 64 {
        // the cube fits, three times the cube does not
        assert_eq!(table_entries(2_642_245), None);
        assert_eq!(table_entries(1_832_031), Some(1_832_031 * 1_832_031 * 1_832_031 * 3));
        assert_eq!(table_entries(1_832_032), None);
    }
}

#[test]
fn cell_offset_puts_blue_slowest_and_red_fastest() {
    assert_eq!(cell_offset(3, 0, 0, 0), 0);
    assert_eq!(cell_offset(3, 1, 0, 0), 3);
    assert_eq!(cell_offset(3, 0, 1, 0), 9);
    assert_eq!(cell_offset(3, 0, 0, 1), 27);
    assert_eq!(cell_offset(3, 1, 2, 0), 21);
    assert_eq!(cell_offset(3, 2, 2, 2), 78);
}

#[test]
fn grid_cells_follow_the_fill_order() {
    let cells = grid_cells(2);
    assert_eq!(
        cells,
        vec![
            (0, 0, 0),
            (1, 0, 0),
            (0, 1, 0),
            (1, 1, 0),
            (0, 0, 1),
            (1, 0, 1),
            (0, 1, 1),
            (1, 1, 1)
        ]
    );
    assert!(grid_cells(0).is_empty());
}

#[test]
fn every_cell_is_written_once() {
    for size in 1..6usize {
        let cells = grid_cells(size);
        assert_eq!(cells.len(), size * size * size);
        let mut seen = vec![false; table_entries(size).unwrap()];
        for (k, &(r, g, b)) in cells.iter().enumerate() {
            let off = cell_offset(size, r, g, b);
            assert_eq!(off, 3 * k);
            for c in 0..3 {
                assert!(!seen[off + c]);
                seen[off + c] = true;
            }
        }
        assert!(seen.iter().all(|&s| s));
    }
}

#[test]
fn corner_offsets_of_the_origin() {
    assert_eq!(corner_offsets(2, 0, 0, 0), [0, 3, 6, 9, 12, 15, 18, 21]);
    assert_eq!(corner_offsets(3, 0, 0, 0), [0, 3, 9, 12, 27, 30, 36, 39]);
}

#[test]
fn corner_offsets_hold_at_the_last_line() {
    assert_eq!(corner_offsets(2, 1, 1, 1), [21; 8]);
    assert_eq!(corner_offsets(3, 2, 0, 0), [6, 6, 15, 15, 33, 33, 42, 42]);
    assert_eq!(corner_offsets(1, 0, 0, 0), [0; 8]);
}

#[test]
fn corner_offsets_beyond_the_grid_follow_the_formula() {
    // a line past the last one is not moved up
    assert_eq!(corner_offsets(2, 2, 0, 0)[0], 6);
    assert_eq!(corner_offsets(2, 2, 0, 0)[1], 6);
    assert_eq!(corner_offsets(2, 0, 0, 5)[4], 60);
}

#[test]
fn corner_offsets_read_lines_below_zero_as_line_zero() {
    assert_eq!(corner_offsets(3, -1, 0, 0), [0, 0, 9, 9, 27, 27, 36, 36]);
    assert_eq!(corner_offsets(3, -7, -2, -1), [0; 8]);
}

#[test]
fn corner_offsets_checked_agrees_where_the_lines_fit() {
    assert_eq!(corner_offsets_checked(2, 0, 0, 0), Some(corner_offsets(2, 0, 0, 0)));
    assert_eq!(corner_offsets_checked(3, -1, 2, 1), Some(corner_offsets(3, -1, 2, 1)));
    assert_eq!(corner_offsets_checked(0, 4, 9, 9), Some([12; 8]));
}

#[test]
fn corner_offsets_checked_refuses_positions_that_overflow() {
    assert_eq!(corner_offsets_checked(2, 0, 0, i64::MAX), None);
    assert_eq!(corner_offsets_checked(usize::MAX, 0, 0, 1), None);
    assert_eq!(corner_offsets_checked(1, i64::MAX, 0, 0), None);
}
