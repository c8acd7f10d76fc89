use xchips::{
    find_chip, list_chips, Classname, Description, GithubRepo, HeaderSource, Index, Name, ProductPage, XChip,
};

fn chip(name: &str, description: &str) -> XChip {
    XChip {
        name: Name(name.to_string()),
        classname: Classname(format!("x{}", name)),
        github_repository: GithubRepo(format!("https://github.com/xinabox/{}", name)),
        header_src: HeaderSource(format!("{}.h", name)),
        description: Description(description.to_string()),
        product_page: ProductPage(format!("https://xinabox.cc/{}", name)),
    }
}

#[test]
fn pairs_in_display_order() {
    let c = chip("CW01", "Wi-Fi core");
    let pairs = c.get_pairs();
    assert_eq!(pairs[0], ("Name", "CW01"));
    assert_eq!(pairs[1], ("Description", "Wi-Fi core"));
    assert_eq!(pairs[2], ("GitHub Repo", "https://github.com/xinabox/CW01"));
    assert_eq!(pairs[3], ("Header Source", "CW01.h"));
    assert_eq!(pairs[4], ("Product Page", "https://xinabox.cc/CW01"));
    assert_eq!(pairs[5], ("C++ Class Name", "xCW01"));
}

#[test]
fn chip_sheet_has_labels_and_values() {
    let c = chip("SW01", "Weather sensor");
    let sheet = c.into_spreadsheet();
    assert_eq!(sheet.max_row_index(), 5);
    assert_eq!(sheet.max_col_index(), 1);
    assert_eq!(sheet.get(Index(0, 0)).map(|s| s.as_str()), Some("Name"));
    assert_eq!(sheet.get(Index(0, 1)).map(|s| s.as_str()), Some("SW01"));
    assert_eq!(sheet.get(Index(5, 0)).map(|s| s.as_str()), Some("C++ Class Name"));
    assert_eq!(sheet.get(Index(5, 1)).map(|s| s.as_str()), Some("xSW01"));
    assert_eq!(sheet.column_widths(), vec![14, 31]);
    let lines = sheet.render_lines();
    assert_eq!(lines.len(), 13);
    assert_eq!(lines[1], "┃ Name           ┃ SW01                            ┃");
}

#[test]
fn listing_has_header_and_one_row_per_chip() {
    let chips = vec![chip("CW01", "Wi-Fi core"), chip("SW01", "Weather sensor")];
    let sheet = list_chips(&chips);
    assert_eq!(sheet.max_row_index(), 2);
    assert_eq!(sheet.max_col_index(), 1);
    assert_eq!(
        sheet.render(),
        "┏━━━━━━━━━━━┳━━━━━━━━━━━━━━━━┓\n\
         ┃ Chip Name ┃ Description    ┃\n\
         ┣━━━━━━━━━━━╋━━━━━━━━━━━━━━━━┫\n\
         ┃ CW01      ┃ Wi-Fi core     ┃\n\
         ┣━━━━━━━━━━━╋━━━━━━━━━━━━━━━━┫\n\
         ┃ SW01      ┃ Weather sensor ┃\n\
         ┗━━━━━━━━━━━┻━━━━━━━━━━━━━━━━┛\n"
    );
}

#[test]
fn listing_of_no_chips_is_header_only() {
    let sheet = list_chips(&[]);
    assert_eq!(sheet.max_row_index(), 0);
    assert_eq!(
        sheet.render(),
        "┏━━━━━━━━━━━┳━━━━━━━━━━━━━┓\n┃ Chip Name ┃ Description ┃\n┗━━━━━━━━━━━┻━━━━━━━━━━━━━┛\n"
    );
}

#[test]
fn find_chip_ignores_ascii_case() {
    let chips = vec![chip("CW01", "Wi-Fi core"), chip("SW01", "Weather sensor"), chip("sw01", "copy")];
    assert_eq!(find_chip(&chips, "sw01"), Some(1));
    assert_eq!(find_chip(&chips, "Cw01"), Some(0));
    assert_eq!(find_chip(&chips, "SW0"), None);
    assert_eq!(find_chip(&chips, "XX99"), None);
    assert_eq!(find_chip(&[], "CW01"), None);
}

#[test]
fn find_chip_leaves_non_ascii_letters_as_they_are() {
    let chips = vec![chip("Éa", "accented")];
    assert_eq!(find_chip(&chips, "ÉA"), Some(0));
    assert_eq!(find_chip(&chips, "éa"), None);
}
