use scrappybot::listing::ListingItem;
use scrappybot::results::{listings_from_rows, page_fits, parse_listing, MAX_PAGE_TAGS};

const PAGE: &str = "<html><body><table>\
<tr class=\"Header\"><td>skip</td><td>me</td></tr>\
<tr class=\"FormTableRow odd\"><td>\t1</td><td> 123-456 </td><td>Atlanta\nGA</td><td>$10.5</td></tr>\
<tr class=\"FormTableRow\"><td>2</td><td>789</td><td><b>Macon</b> GA</td></tr>\
</table></body></html>";

#[test]
fn parses_rows_of_results_table() {
    let items = parse_listing(PAGE).unwrap();
    assert_eq!(items.len(), 2);
    assert_eq!(items[0].id, "123-456");
    assert_eq!(items[0].csv, vec!["1", "123-456", "Atlanta GA", "$10.5"]);
    assert_eq!(items[1].id, "789");
    assert_eq!(items[1].csv, vec!["2", "789", "Macon GA"]);
    let again = parse_listing(PAGE).unwrap();
    assert_eq!(items[0].checksum, again[0].checksum);
    assert_ne!(items[0].checksum, items[1].checksum);
}

#[test]
fn page_without_results_has_no_listings() {
    assert_eq!(parse_listing("<html><body><p>none</p></body></html>").unwrap().len(), 0);
}

#[test]
fn short_row_has_no_listing() {
    let page = "<table><tr class=\"FormTableRow\"><td>only</td></tr></table>";
    assert!(parse_listing(page).is_none());
}

#[test]
fn rows_become_listings_in_order() {
    let rows = vec![
        vec!["a".to_string(), "1".to_string()],
        vec!["b".to_string(), " 2\n".to_string(), "x".to_string()],
    ];
    let items = listings_from_rows(rows).unwrap();
    assert_eq!(items.len(), 2);
    assert_eq!(items[0].id, "1");
    assert_eq!(items[1].id, "2");
    assert_eq!(items[1].checksum, ListingItem::from(vec!["b".to_string(), "2".to_string(), "x".to_string()]).checksum);
    assert!(listings_from_rows(vec![vec!["a".to_string(), "1".to_string()], Vec::new()]).is_none());
}

#[test]
fn page_bound_covers_four_byte_characters() {
    assert!(scrappybot::results::MAX_PAGE_CHARS as u64 * 4 <= u32::MAX as u64);
}

#[test]
fn page_fits_counts_tags() {
    assert!(page_fits(PAGE));
    assert!(page_fits(""));
    assert!(page_fits(&"<b>".repeat(MAX_PAGE_TAGS)));
    assert!(!page_fits(&"<b>".repeat(MAX_PAGE_TAGS + 1)));
    assert!(page_fits(&"x".repeat(MAX_PAGE_TAGS + 1)));
}
