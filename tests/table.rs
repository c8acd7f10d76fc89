use xchips::{Index, Spreadsheet, TableColumn};

fn grid(cells: &[(usize, usize, &str)]) -> Spreadsheet {
    let mut sheet = Spreadsheet::new();
    for (r, c, t) in cells {
        sheet.set(Index(*r, *c), t.to_string());
    }
    sheet
}

#[test]
fn new_grid_has_zero_bounds_and_no_cells() {
    let sheet = Spreadsheet::new();
    assert_eq!(sheet.max_row_index(), 0);
    assert_eq!(sheet.max_col_index(), 0);
    assert_eq!(sheet.get(Index(0, 0)), None);
}

#[test]
fn bounds_track_largest_position_after_each_set() {
    let mut sheet = Spreadsheet::new();
    let steps = [(2, 0, 2, 0), (0, 3, 2, 3), (1, 1, 2, 3), (5, 2, 5, 3), (0, 0, 5, 3)];
    let mut prev = (0, 0);
    for (r, c, want_r, want_c) in steps {
        sheet.set(Index(r, c), format!("{}-{}", r, c));
        assert_eq!(sheet.max_row_index(), want_r);
        assert_eq!(sheet.max_col_index(), want_c);
        assert!(sheet.max_row_index() >= prev.0 && sheet.max_col_index() >= prev.1);
        prev = (sheet.max_row_index(), sheet.max_col_index());
    }
}

#[test]
fn update_bounds_grows_without_storing() {
    let mut sheet = Spreadsheet::new();
    sheet.update_bounds(Index(3, 4));
    assert_eq!(sheet.max_row_index(), 3);
    assert_eq!(sheet.max_col_index(), 4);
    sheet.update_bounds(Index(1, 1));
    assert_eq!(sheet.max_row_index(), 3);
    assert_eq!(sheet.max_col_index(), 4);
    assert_eq!(sheet.get(Index(3, 4)), None);
}

#[test]
fn set_overwrites_and_get_reads_back() {
    let mut sheet = grid(&[(1, 2, "a"), (0, 0, "b")]);
    assert_eq!(sheet.get(Index(1, 2)).map(|s| s.as_str()), Some("a"));
    sheet.set(Index(1, 2), String::from("changed"));
    assert_eq!(sheet.get(Index(1, 2)).map(|s| s.as_str()), Some("changed"));
    assert_eq!(sheet.get(Index(0, 0)).map(|s| s.as_str()), Some("b"));
    assert_eq!(sheet.get(Index(1, 1)), None);
}

#[test]
fn longest_string_len_of_column() {
    let col = TableColumn::new(vec![String::from("ab"), String::from("abcd"), String::new()]);
    assert_eq!(col.get_longest_string_len(), Some(4));
    let empty = TableColumn::new(Vec::new());
    assert_eq!(empty.get_longest_string_len(), None);
    let multibyte = TableColumn::new(vec![String::from("é"), String::from("a")]);
    assert_eq!(multibyte.get_longest_string_len(), Some(2));
}

#[test]
fn default_grid_is_empty() {
    let sheet = Spreadsheet::default();
    assert_eq!(sheet.max_row_index(), 0);
    assert_eq!(sheet.max_col_index(), 0);
    assert_eq!(sheet.render(), Spreadsheet::new().render());
}
