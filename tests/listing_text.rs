use scrappybot::listing::escape_markdown;

#[test]
fn escapes_special_characters() {
    assert_eq!(escape_markdown("a-b.c{d}e"), "a\\-b\\.c\\{d\\}e");
    assert_eq!(escape_markdown(""), "");
    assert_eq!(escape_markdown("plain text"), "plain text");
}

#[test]
fn escapes_only_first_hundred_of_each() {
    let text = "-".repeat(101) + &".".repeat(2);
    let expected = "\\-".repeat(100) + "-" + &"\\.".repeat(2);
    assert_eq!(escape_markdown(&text), expected);
}

#[test]
fn escaping_matches_sequential_replacement() {
    let text = "[x](https://h.com/a?b=1-2) - [\"{1}\", \"2.5\"]";
    let expected = text
        .replacen("-", "\\-", 100)
        .replacen(".", "\\.", 100)
        .replacen("{", "\\{", 100)
        .replacen("}", "\\}", 100);
    assert_eq!(escape_markdown(text), expected);
}

use scrappybot::listing::{clean_cell, white_space, ListingItem};

#[test]
fn cleans_cell_text() {
    assert_eq!(clean_cell("\t\t  Main St.\n Apt 4 \n"), "Main St.  Apt 4");
    assert_eq!(clean_cell(""), "");
    assert_eq!(clean_cell(" \u{a0}\u{3000} "), "");
    assert_eq!(clean_cell("a\nb\nc\nd\ne\nf\ng"), "a b c d e f\ng");
}

#[test]
fn cleaning_matches_replace_and_trim() {
    let text = format!("{}x{}\n\n y \u{2003}", "\t".repeat(102), "\n".repeat(6));
    let expected = text.replacen("\t", "", 100).replacen("\n", " ", 5).trim().to_string();
    assert_eq!(clean_cell(&text), expected);
}

#[test]
fn white_space_is_unicode_white_space() {
    for c in ['\t', '\n', '\u{b}', '\u{c}', '\r', ' ', '\u{85}', '\u{a0}', '\u{1680}', '\u{2000}', '\u{200a}', '\u{2028}', '\u{2029}', '\u{202f}', '\u{205f}', '\u{3000}', 'a', '\u{200b}', '_', '\u{feff}'] {
        assert_eq!(white_space(c), c.is_whitespace());
    }
}

#[test]
fn listing_from_row_cells() {
    let cells: Vec<String> = (0..12).map(|i| format!(" c{}\t\n", i)).collect();
    let item = ListingItem::from_cells(cells).unwrap();
    assert_eq!(item.csv.len(), 9);
    assert_eq!(item.csv[0], "c0");
    assert_eq!(item.id, "c1");
    let same = ListingItem::from((0..9).map(|i| format!("c{}", i)).collect());
    assert_eq!(item.checksum, same.checksum);
    assert!(ListingItem::from_cells(vec!["only".to_string()]).is_none());
    assert!(ListingItem::from_cells(Vec::new()).is_none());
}
