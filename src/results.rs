//! Reading listings off a search results page.
use vstd::prelude::*;
use select::document::Document;
use select::predicate::{Class, Name};
use crate::listing::{count_char, is_listing_of, lemma_count_char_bound, ListingItem};
use crate::text::{chars_of, string_views};

verus! {

/// The class of the results table's rows.
pub const ROW_CLASS: &'static str = "FormTableRow";

/// The tag of the results table's cells.
pub const CELL_TAG: &'static str = "td";

/// The rows of an HTML page: for each element with class `row_class`, in
/// document order, the texts of the `cell_tag` elements below it.
pub uninterp spec fn page_rows(html: Seq<char>, row_class: Seq<char>, cell_tag: Seq<char>) -> Seq<
    Seq<Seq<char>>,
>;

/// The text of each cell of each row.
pub open spec fn rows_view(rows: Seq<Vec<String>>) -> Seq<Seq<Seq<char>>> {
    rows.map_values(|row: Vec<String>| string_views(row@))
}

/// The longest page text, in characters, that the parser takes: its
/// string type holds at most `u32::MAX` bytes, and a character takes at most
/// four.
pub const MAX_PAGE_CHARS: usize = 0x3fff_ffff;

/// The most `<` characters a page may hold. Every element of the parsed tree
/// but a few implied ones comes from a tag, or is a copy of a formatting
/// element opened by one, so the tree is at most about twice this deep.
pub const MAX_PAGE_TAGS: usize = 100_000;

/// The stack, in bytes, that a parse of a page within the bounds needs at most:
/// the parser walks the tree recursively, well under a kilobyte per level.
pub const PARSE_STACK_BYTES: usize = 0x1000_0000;

/// A page the parser takes: at most `MAX_PAGE_CHARS` characters and at most
/// `MAX_PAGE_TAGS` of them `<`.
pub open spec fn fits_parser(html: Seq<char>) -> bool {
    html.len() <= MAX_PAGE_CHARS && count_char(html, '<') <= MAX_PAGE_TAGS
}

/// Whether the parser takes `html`.
pub fn page_fits(html: &str) -> (r: bool)
    ensures
        r == fits_parser(html@),
{
    let cs = chars_of(html);
    if cs.len() > MAX_PAGE_CHARS {
        return false;
    }
    let mut tags: usize = 0;
    let mut i: usize = 0;
    while i < cs.len()
        invariant
            i <= cs@.len() <= MAX_PAGE_CHARS,
            tags == count_char(cs@.subrange(0, i as int), '<'),
        decreases cs@.len() - i,
    {
        let ghost done = cs@.subrange(0, i as int);
        assert(cs@.subrange(0, i + 1).drop_last() =~= done);
        proof {
            lemma_count_char_bound(done, '<');
        }
        if cs[i] == '<' {
            tags = tags + 1;
        }
        i = i + 1;
    }
    assert(cs@.subrange(0, cs@.len() as int) =~= cs@);
    tags <= MAX_PAGE_TAGS
}

/// Relies on select's `Document::from` (an HTML5 parse of the text),
/// `Document::find` with `Class`, `Node::find` with `Name` and `Node::text`:
/// the rows depend on the three texts alone. The parse panics on a text of
/// more than `u32::MAX` bytes. select builds and walks the element tree by
/// recursion, and the tag bound keeps its depth within what a stack of
/// `PARSE_STACK_BYTES` holds; the caller runs the parse on such a stack.
#[verifier::external_body]
fn select_rows(html: &str, row_class: &str, cell_tag: &str) -> (r: Vec<Vec<String>>)
    requires
        fits_parser(html@),
    ensures
        rows_view(r@) == page_rows(html@, row_class@, cell_tag@),
{
    let document = Document::from(html);
    document.find(Class(row_class)).map(|row| row.find(Name(cell_tag)).map(|c| c.text()).collect()).collect()
}

/// The listing of each row, in order; `None` exactly when some row has fewer
/// than two cells, so no case number.
pub fn listings_from_rows(rows: Vec<Vec<String>>) -> (r: Option<Vec<ListingItem>>)
    ensures
        match r {
            Some(items) => {
                &&& items@.len() == rows@.len()
                &&& forall|i: int| 0 <= i < rows@.len() ==> #[trigger] rows@[i]@.len() >= 2
                &&& forall|i: int|
                    0 <= i < rows@.len() ==> is_listing_of(
                        #[trigger] rows_view(rows@)[i],
                        items@[i],
                    )
            },
            None => exists|i: int| 0 <= i < rows@.len() && #[trigger] rows@[i]@.len() < 2,
        },
{
    let ghost views = rows_view(rows@);
    let mut items: Vec<ListingItem> = Vec::new();
    for row in it: rows
        invariant
            it.seq() == rows@,
            views == rows_view(rows@),
            items@.len() == it.index(),
            forall|j: int| 0 <= j < it.index() ==> #[trigger] rows@[j]@.len() >= 2,
            forall|j: int| 0 <= j < it.index() ==> is_listing_of(#[trigger] views[j], items@[j]),
    {
        let ghost k = it.index() as int;
        assert(views[k] == string_views(rows@[k]@));
        match ListingItem::from_cells(row) {
            Some(item) => {
                items.push(item);
            },
            None => {
                assert(rows@[k]@.len() < 2);
                return None;
            },
        }
    }
    Some(items)
}

/// The listings of a search results page; `None` exactly when some row of the
/// results table has fewer than two cells. Run it on a stack of
/// `PARSE_STACK_BYTES`.
pub fn parse_listing(html: &str) -> (r: Option<Vec<ListingItem>>)
    requires
        fits_parser(html@),
    ensures
        ({
            let rows = page_rows(html@, ROW_CLASS@, CELL_TAG@);
            match r {
                Some(items) => {
                    &&& items@.len() == rows.len()
                    &&& forall|i: int| 0 <= i < rows.len() ==> #[trigger] rows[i].len() >= 2
                    &&& forall|i: int| 0 <= i < rows.len() ==> is_listing_of(#[trigger] rows[i], items@[i])
                },
                None => exists|i: int| 0 <= i < rows.len() && #[trigger] rows[i].len() < 2,
            }
        }),
{
    let rows = select_rows(html, ROW_CLASS, CELL_TAG);
    let r = listings_from_rows(rows);
    proof {
        let views = rows_view(rows@);
        assert forall|i: int| 0 <= i < rows@.len() implies #[trigger] views[i].len() == rows@[i]@.len() by {
            assert(views[i] == string_views(rows@[i]@));
        }
        if r is None {
            let i = choose|i: int| 0 <= i < rows@.len() && #[trigger] rows@[i]@.len() < 2;
            assert(views[i].len() < 2);
        }
    }
    r
}

} // verus!
