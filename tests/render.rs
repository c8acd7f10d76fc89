use xchips::render::border_line;
use xchips::{Index, Spreadsheet};

fn grid(cells: &[(usize, usize, &str)]) -> Spreadsheet {
    let mut sheet = Spreadsheet::new();
    for (r, c, t) in cells {
        sheet.set(Index(*r, *c), t.to_string());
    }
    sheet
}

#[test]
fn two_cells_one_row() {
    let sheet = grid(&[(0, 0, "Name"), (0, 1, "CI40")]);
    assert_eq!(sheet.column_widths(), vec![4, 4]);
    assert_eq!(
        sheet.render(),
        "┏━━━━━━┳━━━━━━┓\n┃ Name ┃ CI40 ┃\n┗━━━━━━┻━━━━━━┛\n"
    );
}

#[test]
fn short_cell_padded_to_column_width() {
    let sheet = grid(&[(0, 0, "Description"), (1, 0, "Short")]);
    assert_eq!(sheet.column_widths(), vec![11]);
    let lines = sheet.render_lines();
    assert_eq!(lines.len(), 5);
    assert_eq!(lines[0], "┏━━━━━━━━━━━━━┓");
    assert_eq!(lines[1], "┃ Description ┃");
    assert_eq!(lines[2], "┣━━━━━━━━━━━━━┫");
    assert_eq!(lines[3], "┃ Short       ┃");
    assert_eq!(lines[4], "┗━━━━━━━━━━━━━┛");
}

#[test]
fn empty_grid_renders_minimal_box() {
    let sheet = Spreadsheet::new();
    assert_eq!(sheet.column_widths(), vec![0]);
    assert_eq!(sheet.render(), "┏━━┓\n┃  ┃\n┗━━┛\n");
}

#[test]
fn line_count_follows_row_bound() {
    for rows in 0..5usize {
        let sheet = grid(&[(rows, 2, "x")]);
        let lines = sheet.render_lines();
        assert_eq!(lines.len(), 1 + 2 * (rows + 1));
        assert_eq!(sheet.render().matches('\n').count(), 1 + 2 * (rows + 1));
    }
}

#[test]
fn widths_ignore_absent_cells() {
    let sheet = grid(&[(0, 0, "abc"), (3, 0, "a"), (2, 2, "hello"), (1, 2, "")]);
    assert_eq!(sheet.column_widths(), vec![3, 0, 5]);
}

#[test]
fn sparse_grid_renders_blank_cells() {
    let sheet = grid(&[(0, 0, "ab"), (1, 1, "c")]);
    assert_eq!(
        sheet.render(),
        "┏━━━━┳━━━┓\n┃ ab ┃   ┃\n┣━━━━╋━━━┫\n┃    ┃ c ┃\n┗━━━━┻━━━┛\n"
    );
}

#[test]
fn empty_column_has_width_zero() {
    let sheet = grid(&[(0, 0, "a"), (0, 2, "b")]);
    assert_eq!(sheet.render(), "┏━━━┳━━┳━━━┓\n┃ a ┃  ┃ b ┃\n┗━━━┻━━┻━━━┛\n");
}

#[test]
fn rendering_twice_gives_same_text() {
    let sheet = grid(&[(0, 0, "k"), (1, 1, "value"), (2, 0, "other")]);
    assert_eq!(sheet.render(), sheet.render());
    let reordered = grid(&[(2, 0, "other"), (1, 1, "value"), (0, 0, "k")]);
    assert_eq!(sheet.render(), reordered.render());
}

#[test]
fn width_counts_bytes_of_multibyte_text() {
    let sheet = grid(&[(0, 0, "é"), (1, 0, "ab")]);
    assert_eq!(sheet.column_widths(), vec![2]);
    assert_eq!(sheet.render(), "┏━━━━┓\n┃ é ┃\n┣━━━━┫\n┃ ab ┃\n┗━━━━┛\n");
}

#[test]
fn overwritten_cell_renders_latest_text() {
    let mut sheet = grid(&[(0, 0, "a long text")]);
    sheet.set(Index(0, 0), String::from("x"));
    assert_eq!(sheet.render(), "┏━━━┓\n┃ x ┃\n┗━━━┛\n");
}

#[test]
fn border_line_without_columns_has_both_edges() {
    assert_eq!(border_line("┗", "┻", "┛", &[]), "┗┛");
}

#[test]
fn border_line_joins_rules_between_columns() {
    assert_eq!(border_line("┣", "╋", "┫", &[1, 0, 3]), "┣━━━╋━━╋━━━━━┫");
    assert_eq!(border_line("┏", "┳", "┓", &[2]), "┏━━━━┓");
}
