//! A row of the listing site's search results.
use vstd::prelude::*;
use std::hash::{Hash, Hasher};
use crate::state::IdChecksum;
use crate::text::{chars_of, push_char, string_views};

verus! {

/// The hash of a row's fields.
pub uninterp spec fn fields_hash(fields: Seq<Seq<char>>) -> u64;

/// Relies on `Hash for Vec<String>` fed to a fresh `DefaultHasher` (fixed
/// keys, no per-process seed): the hash depends on the fields alone.
#[verifier::external_body]
fn hash_fields(csv: &Vec<String>) -> (r: u64)
    ensures
        r == fields_hash(string_views(csv@)),
{
    let mut s = std::collections::hash_map::DefaultHasher::new();
    csv.hash(&mut s);
    s.finish()
}

/// A listed property: its case number, the row's cells, and their hash.
#[derive(Clone)]
pub struct ListingItem {
    pub id: String,
    pub csv: Vec<String>,
    pub checksum: u64,
}

impl ListingItem {
    /// The item for a row of cells; the case number is the second cell.
    pub fn from(csv: Vec<String>) -> (r: ListingItem)
        requires
            csv@.len() >= 2,
        ensures
            r.id@ == csv@[1]@,
            r.csv@ == csv@,
            r.checksum == fields_hash(string_views(csv@)),
    {
        let checksum = hash_fields(&csv);
        let id = csv[1].clone();
        ListingItem { id, csv, checksum }
    }
}

impl IdChecksum for ListingItem {
    open spec fn identity(&self) -> Seq<char> {
        self.id@
    }

    open spec fn checksum(&self) -> u64 {
        self.checksum
    }

    fn id_checksum(&self) -> (r: (String, u64)) {
        (self.id.clone(), self.checksum)
    }
}


/// How many of the leading occurrences of each special character are escaped.
pub const ESCAPE_LIMIT: usize = 100;

/// The characters that MarkdownV2 messages escape.
pub open spec fn is_special(c: char) -> bool {
    c == '-' || c == '.' || c == '{' || c == '}'
}

/// How often `c` occurs in `s`.
pub open spec fn count_char(s: Seq<char>, c: char) -> nat
    decreases s.len(),
{
    if s.len() == 0 {
        0
    } else {
        count_char(s.drop_last(), c) + if s.last() == c {
            1nat
        } else {
            0nat
        }
    }
}

/// `s` with a backslash before each of the first `ESCAPE_LIMIT` occurrences
/// of `-`, of `.`, of `{` and of `}`.
pub open spec fn escaped(s: Seq<char>) -> Seq<char>
    decreases s.len(),
{
    if s.len() == 0 {
        s
    } else {
        let c = s.last();
        let prior = escaped(s.drop_last());
        if is_special(c) && count_char(s.drop_last(), c) < ESCAPE_LIMIT {
            prior.push('\\').push(c)
        } else {
            prior.push(c)
        }
    }
}

pub(crate) proof fn lemma_count_char_bound(s: Seq<char>, c: char)
    ensures
        count_char(s, c) <= s.len(),
    decreases s.len(),
{
    if s.len() > 0 {
        lemma_count_char_bound(s.drop_last(), c);
    }
}

/// Escapes `text` for a MarkdownV2 message.
pub fn escape_markdown(text: &str) -> (r: String)
    ensures
        r@ == escaped(text@),
{
    let cs = chars_of(text);
    let mut out = String::new();
    let mut dashes: usize = 0;
    let mut dots: usize = 0;
    let mut opens: usize = 0;
    let mut closes: usize = 0;
    let mut i: usize = 0;
    while i < cs.len()
        invariant
            i <= cs@.len(),
            out@ == escaped(cs@.subrange(0, i as int)),
            dashes == count_char(cs@.subrange(0, i as int), '-'),
            dots == count_char(cs@.subrange(0, i as int), '.'),
            opens == count_char(cs@.subrange(0, i as int), '{'),
            closes == count_char(cs@.subrange(0, i as int), '}'),
        decreases cs@.len() - i,
    {
        let ghost done = cs@.subrange(0, i as int);
        let c = cs[i];
        assert(cs@.subrange(0, i + 1).drop_last() =~= done);
        assert(cs@.subrange(0, i + 1).last() == c);
        proof {
            lemma_count_char_bound(done, '-');
            lemma_count_char_bound(done, '.');
            lemma_count_char_bound(done, '{');
            lemma_count_char_bound(done, '}');
        }
        let seen: usize = if c == '-' {
            dashes
        } else if c == '.' {
            dots
        } else if c == '{' {
            opens
        } else if c == '}' {
            closes
        } else {
            ESCAPE_LIMIT
        };
        if seen < ESCAPE_LIMIT {
            push_char(&mut out, '\\');
        }
        push_char(&mut out, c);
        if c == '-' {
            dashes = dashes + 1;
        } else if c == '.' {
            dots = dots + 1;
        } else if c == '{' {
            opens = opens + 1;
        } else if c == '}' {
            closes = closes + 1;
        }
        i = i + 1;
    }
    assert(cs@.subrange(0, cs@.len() as int) =~= cs@);
    out
}


/// How many leading cells of a results row make up a listing.
pub const ROW_CELLS: usize = 9;

/// How many leading tabs a cell loses, and how many leading line breaks
/// become spaces.
pub const TAB_LIMIT: usize = 100;
pub const NEWLINE_LIMIT: usize = 5;

/// The characters with Unicode's White_Space property, which
/// `char::is_whitespace` tests for.
pub open spec fn is_white_space(c: char) -> bool {
    let u = c as u32;
    ||| 0x9 <= u <= 0xd
    ||| u == 0x20
    ||| u == 0x85
    ||| u == 0xa0
    ||| u == 0x1680
    ||| 0x2000 <= u <= 0x200a
    ||| u == 0x2028
    ||| u == 0x2029
    ||| u == 0x202f
    ||| u == 0x205f
    ||| u == 0x3000
}

/// `s` without its first `TAB_LIMIT` tabs.
pub open spec fn drop_tabs(s: Seq<char>) -> Seq<char>
    decreases s.len(),
{
    if s.len() == 0 {
        s
    } else if s.last() == '\t' && count_char(s.drop_last(), '\t') < TAB_LIMIT {
        drop_tabs(s.drop_last())
    } else {
        drop_tabs(s.drop_last()).push(s.last())
    }
}

/// `s` with its first `NEWLINE_LIMIT` line breaks turned into spaces.
pub open spec fn space_newlines(s: Seq<char>) -> Seq<char>
    decreases s.len(),
{
    if s.len() == 0 {
        s
    } else if s.last() == '\n' && count_char(s.drop_last(), '\n') < NEWLINE_LIMIT {
        space_newlines(s.drop_last()).push(' ')
    } else {
        space_newlines(s.drop_last()).push(s.last())
    }
}

/// `s` without leading white space.
pub open spec fn trim_start(s: Seq<char>) -> Seq<char>
    decreases s.len(),
{
    if s.len() > 0 && is_white_space(s[0]) {
        trim_start(s.drop_first())
    } else {
        s
    }
}

/// `s` without trailing white space.
pub open spec fn trim_end(s: Seq<char>) -> Seq<char>
    decreases s.len(),
{
    if s.len() > 0 && is_white_space(s.last()) {
        trim_end(s.drop_last())
    } else {
        s
    }
}

/// The text of a results cell as a listing keeps it.
pub open spec fn cleaned_cell(s: Seq<char>) -> Seq<char> {
    trim_end(trim_start(space_newlines(drop_tabs(s))))
}

/// The cells a listing keeps of a results row: the first `ROW_CELLS`, cleaned.
pub open spec fn row_cells(cells: Seq<Seq<char>>) -> Seq<Seq<char>> {
    let n = if cells.len() < ROW_CELLS {
        cells.len() as int
    } else {
        ROW_CELLS as int
    };
    cells.subrange(0, n).map_values(|c: Seq<char>| cleaned_cell(c))
}

/// `item` is the listing of a results row with cells `cells`.
pub open spec fn is_listing_of(cells: Seq<Seq<char>>, item: ListingItem) -> bool {
    &&& string_views(item.csv@) == row_cells(cells)
    &&& item.id@ == row_cells(cells)[1]
    &&& item.checksum == fields_hash(row_cells(cells))
}

/// Whether `c` is white space.
pub fn white_space(c: char) -> (r: bool)
    ensures
        r == is_white_space(c),
{
    let u = c as u32;
    (0x9 <= u && u <= 0xd) || u == 0x20 || u == 0x85 || u == 0xa0 || u == 0x1680 || (0x2000 <= u
        && u <= 0x200a) || u == 0x2028 || u == 0x2029 || u == 0x202f || u == 0x205f || u == 0x3000
}

proof fn lemma_trim_start_from(s: Seq<char>, a: int)
    requires
        0 <= a <= s.len(),
        forall|j: int| 0 <= j < a ==> is_white_space(#[trigger] s[j]),
        a == s.len() || !is_white_space(s[a]),
    ensures
        trim_start(s) == s.subrange(a, s.len() as int),
    decreases a,
{
    if a > 0 {
        let t = s.drop_first();
        assert forall|j: int| 0 <= j < a - 1 implies is_white_space(#[trigger] t[j]) by {
            assert(t[j] == s[j + 1]);
        }
        if a < s.len() {
            assert(t[a - 1] == s[a]);
        }
        lemma_trim_start_from(t, a - 1);
        assert(t.subrange(a - 1, t.len() as int) =~= s.subrange(a, s.len() as int));
    } else {
        assert(s.subrange(0, s.len() as int) =~= s);
    }
}

proof fn lemma_trim_end_to(s: Seq<char>, b: int)
    requires
        0 <= b <= s.len(),
        forall|j: int| b <= j < s.len() ==> is_white_space(#[trigger] s[j]),
        b == 0 || !is_white_space(s[b - 1]),
    ensures
        trim_end(s) == s.subrange(0, b),
    decreases s.len() - b,
{
    if b < s.len() {
        let t = s.drop_last();
        assert forall|j: int| b <= j < t.len() implies is_white_space(#[trigger] t[j]) by {
            assert(t[j] == s[j]);
        }
        if b > 0 {
            assert(t[b - 1] == s[b - 1]);
        }
        assert(is_white_space(s[s.len() - 1]));
        lemma_trim_end_to(t, b);
        assert(t.subrange(0, b) =~= s.subrange(0, b));
    } else {
        assert(s.subrange(0, b) =~= s);
        if b > 0 {
            assert(s.last() == s[b - 1]);
        }
    }
}

/// Cleans the text of a results cell: drops the first `TAB_LIMIT` tabs, turns
/// the first `NEWLINE_LIMIT` line breaks into spaces, and trims white space.
pub fn clean_cell(text: &str) -> (r: String)
    ensures
        r@ == cleaned_cell(text@),
{
    let cs = chars_of(text);
    let mut untabbed: Vec<char> = Vec::new();
    let mut tabs: usize = 0;
    let mut i: usize = 0;
    while i < cs.len()
        invariant
            i <= cs@.len(),
            untabbed@ == drop_tabs(cs@.subrange(0, i as int)),
            tabs == count_char(cs@.subrange(0, i as int), '\t'),
        decreases cs@.len() - i,
    {
        let ghost done = cs@.subrange(0, i as int);
        let c = cs[i];
        assert(cs@.subrange(0, i + 1).drop_last() =~= done);
        assert(cs@.subrange(0, i + 1).last() == c);
        proof {
            lemma_count_char_bound(done, '\t');
        }
        if c == '\t' {
            if tabs >= TAB_LIMIT {
                untabbed.push(c);
            }
            tabs = tabs + 1;
        } else {
            untabbed.push(c);
        }
        i = i + 1;
    }
    assert(cs@.subrange(0, cs@.len() as int) =~= cs@);
    let mut spaced: Vec<char> = Vec::new();
    let mut breaks: usize = 0;
    let mut i: usize = 0;
    while i < untabbed.len()
        invariant
            i <= untabbed@.len(),
            spaced@ == space_newlines(untabbed@.subrange(0, i as int)),
            spaced@.len() == i,
            breaks == count_char(untabbed@.subrange(0, i as int), '\n'),
        decreases untabbed@.len() - i,
    {
        let ghost done = untabbed@.subrange(0, i as int);
        let c = untabbed[i];
        assert(untabbed@.subrange(0, i + 1).drop_last() =~= done);
        assert(untabbed@.subrange(0, i + 1).last() == c);
        proof {
            lemma_count_char_bound(done, '\n');
        }
        if c == '\n' {
            if breaks < NEWLINE_LIMIT {
                spaced.push(' ');
            } else {
                spaced.push(c);
            }
            breaks = breaks + 1;
        } else {
            spaced.push(c);
        }
        i = i + 1;
    }
    assert(untabbed@.subrange(0, untabbed@.len() as int) =~= untabbed@);
    let mut a: usize = 0;
    while a < spaced.len() && white_space(spaced[a])
        invariant
            a <= spaced@.len(),
            forall|j: int| 0 <= j < a ==> is_white_space(#[trigger] spaced@[j]),
        decreases spaced@.len() - a,
    {
        a = a + 1;
    }
    proof {
        lemma_trim_start_from(spaced@, a as int);
    }
    let ghost started = spaced@.subrange(a as int, spaced@.len() as int);
    let mut b: usize = spaced.len();
    while b > a && white_space(spaced[b - 1])
        invariant
            a <= b <= spaced@.len(),
            forall|j: int| b <= j < spaced@.len() ==> is_white_space(#[trigger] spaced@[j]),
        decreases b,
    {
        b = b - 1;
    }
    proof {
        assert forall|j: int| b - a <= j < started.len() implies is_white_space(
            #[trigger] started[j],
        ) by {
            assert(started[j] == spaced@[j + a]);
        }
        if b > a {
            assert(started[b - a - 1] == spaced@[b - 1]);
        }
        lemma_trim_end_to(started, b - a);
        assert(started.subrange(0, b - a) =~= spaced@.subrange(a as int, b as int));
    }
    let mut out = String::new();
    let mut k: usize = a;
    while k < b
        invariant
            a <= k <= b <= spaced@.len(),
            out@ == spaced@.subrange(a as int, k as int),
        decreases b - k,
    {
        push_char(&mut out, spaced[k]);
        assert(spaced@.subrange(a as int, k + 1) =~= spaced@.subrange(a as int, k as int).push(
            spaced@[k as int],
        ));
        k = k + 1;
    }
    out
}

impl ListingItem {
    /// The listing of a results row given the text of its cells; `None` when
    /// the row has no case number cell.
    pub fn from_cells(cells: Vec<String>) -> (r: Option<ListingItem>)
        ensures
            match r {
                Some(item) => cells@.len() >= 2 && is_listing_of(string_views(cells@), item),
                None => cells@.len() < 2,
            },
    {
        if cells.len() < 2 {
            return None;
        }
        let ghost views = string_views(cells@);
        let n: usize = if cells.len() < ROW_CELLS {
            cells.len()
        } else {
            ROW_CELLS
        };
        let mut row: Vec<String> = Vec::new();
        let mut i: usize = 0;
        while i < n
            invariant
                n <= cells@.len(),
                n == (if cells@.len() < ROW_CELLS { cells@.len() as int } else { ROW_CELLS as int }),
                views == string_views(cells@),
                i <= n,
                row@.len() == i,
                string_views(row@) == views.subrange(0, i as int).map_values(
                    |c: Seq<char>| cleaned_cell(c),
                ),
            decreases n - i,
        {
            let cell = clean_cell(cells[i].as_str());
            let ghost before = row@;
            row.push(cell);
            assert(string_views(row@) =~= views.subrange(0, i + 1).map_values(
                |c: Seq<char>| cleaned_cell(c),
            )) by {
                let want = views.subrange(0, i + 1).map_values(|c: Seq<char>| cleaned_cell(c));
                let had = views.subrange(0, i as int).map_values(|c: Seq<char>| cleaned_cell(c));
                assert(string_views(before) == had);
                assert forall|j: int| 0 <= j < i + 1 implies #[trigger] string_views(row@)[j]
                    == want[j] by {
                    if j < i {
                        assert(row@[j] == before[j]);
                        assert(string_views(before)[j] == had[j]);
                    } else {
                        assert(views[j] == cells@[j]@);
                    }
                }
            }
            i = i + 1;
        }
        Some(ListingItem::from(row))
    }
}

} // verus!
