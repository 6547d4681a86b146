//! One index-to-name table, and the parser that loads it from CSV text.
//!
//! A table file must open with the byte-order marker; without it the file is
//! skipped and contributes nothing. Each line is trimmed, text from the
//! first `;` on is comment, an empty result is skipped, the first `,` parts
//! the index from the name, and a further `,` cuts the name off before
//! additional unused columns. A malformed row (no separator, or an index
//! that is not a `u32` numeral) fails the whole file's load.
//!
//! Trimming strips spaces, tabs and carriage returns from both ends; later
//! entries for the same index override earlier ones.

use vstd::prelude::*;

use crate::text::{digits_val, is_digit_char, parse_index, push_char};

verus! {

/// Whitespace that trimming removes from the ends of a line.
pub open spec fn is_space_char(c: char) -> bool {
    c == ' ' || c == '\t' || c == '\r'
}

/// Exec counterpart of [`is_space_char`].
pub fn is_space_char_exec(c: char) -> (r: bool)
    ensures
        r == is_space_char(c),
{
    c == ' ' || c == '\t' || c == '\r'
}

/// Position of the first `c` in `s[p..stop]`, or `stop` when there is none.
pub open spec fn find_from(s: Seq<char>, p: int, stop: int, c: char) -> int
    decreases stop - p,
    when 0 <= p <= stop <= s.len()
{
    if p == stop || s[p] == c {
        p
    } else {
        find_from(s, p + 1, stop, c)
    }
}

/// What [`find_from`] returns: the first occurrence, or the stop bound.
pub proof fn lemma_find_from(s: Seq<char>, p: int, stop: int, c: char)
    requires
        0 <= p <= stop <= s.len(),
    ensures
        p <= find_from(s, p, stop, c) <= stop,
        find_from(s, p, stop, c) < stop ==> s[find_from(s, p, stop, c)] == c,
        forall|k: int| p <= k < find_from(s, p, stop, c) ==> s[k] != c,
    decreases stop - p,
{
    if p < stop && s[p] != c {
        lemma_find_from(s, p + 1, stop, c);
    }
}

/// Position of the first non-space in `s[p..stop]`, or `stop`.
pub open spec fn skip_spaces(s: Seq<char>, p: int, stop: int) -> int
    decreases stop - p,
    when 0 <= p <= stop <= s.len()
{
    if p == stop || !is_space_char(s[p]) {
        p
    } else {
        skip_spaces(s, p + 1, stop)
    }
}

/// What [`skip_spaces`] returns: the bounds, and the skipped prefix is space.
pub proof fn lemma_skip_spaces(s: Seq<char>, p: int, stop: int)
    requires
        0 <= p <= stop <= s.len(),
    ensures
        p <= skip_spaces(s, p, stop) <= stop,
        skip_spaces(s, p, stop) < stop ==> !is_space_char(s[skip_spaces(s, p, stop)]),
        forall|k: int| p <= k < skip_spaces(s, p, stop) ==> is_space_char(s[k]),
    decreases stop - p,
{
    if p < stop && is_space_char(s[p]) {
        lemma_skip_spaces(s, p + 1, stop);
    }
}

/// End of the content of `s[p..q]` once trailing spaces are dropped: the
/// least bound `b` with nothing but space in `s[b..q]`, never below `p`.
pub open spec fn trim_back(s: Seq<char>, p: int, q: int) -> int
    decreases q - p,
    when 0 <= p <= q <= s.len()
{
    if q == p || !is_space_char(s[q - 1]) {
        q
    } else {
        trim_back(s, p, q - 1)
    }
}

/// What [`trim_back`] returns: the bounds, and the dropped suffix is space.
pub proof fn lemma_trim_back(s: Seq<char>, p: int, q: int)
    requires
        0 <= p <= q <= s.len(),
    ensures
        p <= trim_back(s, p, q) <= q,
        trim_back(s, p, q) > p ==> !is_space_char(s[trim_back(s, p, q) - 1]),
        forall|k: int| trim_back(s, p, q) <= k < q ==> is_space_char(s[k]),
    decreases q - p,
{
    if q > p && is_space_char(s[q - 1]) {
        lemma_trim_back(s, p, q - 1);
    }
}

/// Exec counterpart of [`find_from`].
pub fn find_from_exec(s: &str, p: usize, stop: usize, c: char) -> (r: usize)
    requires
        p <= stop,
        stop <= s@.len(),
    ensures
        r == find_from(s@, p as int, stop as int, c),
{
    let mut i: usize = p;
    while i < stop && s.get_char(i) != c
        invariant
            p <= i <= stop,
            stop <= s@.len(),
            find_from(s@, p as int, stop as int, c) == find_from(s@, i as int, stop as int, c),
        decreases stop - i,
    {
        i = i + 1;
    }
    i
}

/// Exec counterpart of [`skip_spaces`].
pub fn skip_spaces_exec(s: &str, p: usize, stop: usize) -> (r: usize)
    requires
        p <= stop,
        stop <= s@.len(),
    ensures
        r == skip_spaces(s@, p as int, stop as int),
{
    let mut i: usize = p;
    while i < stop && is_space_char_exec(s.get_char(i))
        invariant
            p <= i <= stop,
            stop <= s@.len(),
            skip_spaces(s@, p as int, stop as int) == skip_spaces(s@, i as int, stop as int),
        decreases stop - i,
    {
        i = i + 1;
    }
    i
}

/// Exec counterpart of [`trim_back`].
pub fn trim_back_exec(s: &str, p: usize, q: usize) -> (r: usize)
    requires
        p <= q,
        q <= s@.len(),
    ensures
        r == trim_back(s@, p as int, q as int),
{
    let mut i: usize = q;
    while i > p && is_space_char_exec(s.get_char(i - 1))
        invariant
            p <= i <= q,
            q <= s@.len(),
            trim_back(s@, p as int, q as int) == trim_back(s@, p as int, i as int),
        decreases i,
    {
        i = i - 1;
    }
    i
}

/// Name of the half-width form that the character normalizer substitutes.
/// `None` where the character has no distinct half-width form.
pub uninterp spec fn halfwidth_of(c: char) -> Option<char>;

/// Relies on `unicode_hfwidth::to_halfwidth`: a fixed table from full-width
/// characters to their half-width forms, a function of the character alone;
/// `None` for characters outside that table.
#[verifier::external_body]
fn to_halfwidth(c: char) -> (r: Option<char>)
    ensures
        r == halfwidth_of(c),
{
    unicode_hfwidth::to_halfwidth(c)
}

/// What normalization makes of one character: its half-width form where one
/// exists; otherwise spaces and closing parentheses are dropped, an opening
/// parenthesis becomes a double underscore, and the rest stays.
pub open spec fn normalize_char(c: char) -> Seq<char> {
    match halfwidth_of(c) {
        Some(h) => seq![h],
        None => if c == ' ' || c == ')' {
            Seq::empty()
        } else if c == '(' {
            seq!['_', '_']
        } else {
            seq![c]
        },
    }
}

/// Character-wise normalization of a whole name.
pub open spec fn normalize_spec(s: Seq<char>) -> Seq<char>
    decreases s.len(),
{
    if s.len() == 0 {
        Seq::empty()
    } else {
        normalize_spec(s.drop_last()) + normalize_char(s.last())
    }
}

/// Normalizes a display name so it is identifier-safe: full-width characters
/// become half-width, spaces and `)` are dropped, `(` becomes `__`.
pub fn normalize_name(name: &str) -> (r: String)
    ensures
        r@ == normalize_spec(name@),
{
    let n = name.unicode_len();
    let mut out = String::new();
    let mut i: usize = 0;
    while i < n
        invariant
            n == name@.len(),
            i <= n,
            out@ == normalize_spec(name@.take(i as int)),
        decreases n - i,
    {
        let c = name.get_char(i);
        match to_halfwidth(c) {
            Some(h) => push_char(&mut out, h),
            None => {
                if c == '(' {
                    out.append("__");
                    proof {
                        reveal_strlit("__");
                        assert("__"@ =~= seq!['_', '_']);
                    }
                } else if c == ' ' || c == ')' {
                } else {
                    push_char(&mut out, c);
                }
            },
        }
        i = i + 1;
        proof {
            assert(name@.take(i as int).drop_last() =~= name@.take(i - 1));
            assert(name@.take(i as int).last() == name@[i - 1]);
            assert(out@ =~= normalize_spec(name@.take(i as int)));
        }
    }
    proof {
        assert(name@.take(n as int) =~= name@);
    }
    out
}

/// The mapping an entry list stands for: entries are read left to right and
/// a later entry for the same index wins.
pub open spec fn entries_view(s: Seq<(u32, String)>) -> Map<u32, Seq<char>>
    decreases s.len(),
{
    if s.len() == 0 {
        Map::empty()
    } else {
        entries_view(s.drop_last()).insert(s.last().0, s.last().1@)
    }
}

/// A key that appears in no entry is not in the view.
pub proof fn lemma_entries_view_absent(s: Seq<(u32, String)>, key: u32)
    requires
        forall|j: int| 0 <= j < s.len() ==> s[j].0 != key,
    ensures
        !entries_view(s).contains_key(key),
    decreases s.len(),
{
    if s.len() > 0 {
        lemma_entries_view_absent(s.drop_last(), key);
    }
}

/// The last entry for a key gives the view's value at that key.
pub proof fn lemma_entries_view_found(s: Seq<(u32, String)>, i: int)
    requires
        0 <= i < s.len(),
        forall|j: int| i < j < s.len() ==> s[j].0 != s[i].0,
    ensures
        entries_view(s).contains_key(s[i].0),
        entries_view(s)[s[i].0] == s[i].1@,
    decreases s.len(),
{
    if i < s.len() - 1 {
        lemma_entries_view_found(s.drop_last(), i);
    }
}

/// Why loading a table file failed.
#[derive(Clone, Copy, Debug, PartialEq, Eq, Structural)]
pub enum CsvError {
    /// The file does not open with the byte-order marker; it is to be
    /// skipped with a warning and contributes no entries.
    MissingMarker,
    /// A row has no `,` separator, or its index field is not a `u32`
    /// numeral; the whole file's load fails.
    BadRow,
}

/// Whether decoded text opens with the byte-order marker. Table files and
/// script files alike must carry it; text without it is skipped.
pub fn check_bom(text: &str) -> (r: bool)
    ensures
        r == (text@.len() > 0 && text@[0] == '\u{FEFF}'),
{
    !text.is_empty() && text.get_char(0) == '\u{FEFF}'
}

/// Start of the meaningful text of the line `s[p..e)`: leading spaces are
/// skipped.
pub open spec fn row_start(s: Seq<char>, p: int, e: int) -> int {
    skip_spaces(s, p, e)
}

/// End of the meaningful text of the line `s[p..e)`: trailing spaces are
/// dropped, then everything from the first `;` on is comment. The cut is
/// lexical, not quote-aware, and the comment is cut after trimming.
pub open spec fn row_core_end(s: Seq<char>, p: int, e: int) -> int {
    find_from(s, row_start(s, p, e), trim_back(s, row_start(s, p, e), e), ';')
}

/// A line whose meaningful text is empty is skipped.
pub open spec fn row_is_skip(s: Seq<char>, p: int, e: int) -> bool {
    row_core_end(s, p, e) == row_start(s, p, e)
}

/// Position of the `,` that parts the index field from the name.
pub open spec fn row_comma(s: Seq<char>, p: int, e: int) -> int {
    find_from(s, row_start(s, p, e), row_core_end(s, p, e), ',')
}

/// Whether the index field is a `u32` numeral: nonempty, digits only, and
/// within range.
pub open spec fn row_index_ok(s: Seq<char>, p: int, e: int) -> bool {
    let a = row_start(s, p, e);
    let comma = row_comma(s, p, e);
    &&& comma > a
    &&& forall|k: int| a <= k < comma ==> is_digit_char(s[k])
    &&& digits_val(s.subrange(a, comma)) <= u32::MAX
}

/// A non-skipped line with no separator or a malformed index fails the load.
pub open spec fn row_is_bad(s: Seq<char>, p: int, e: int) -> bool {
    &&& !row_is_skip(s, p, e)
    &&& (row_comma(s, p, e) == row_core_end(s, p, e) || !row_index_ok(s, p, e))
}

/// The index a good row binds.
pub open spec fn row_key(s: Seq<char>, p: int, e: int) -> u32 {
    digits_val(s.subrange(row_start(s, p, e), row_comma(s, p, e))) as u32
}

/// The name field of a good row: the text between the first `,` and the
/// second `,` (or the end), before normalization.
pub open spec fn row_raw_name(s: Seq<char>, p: int, e: int) -> Seq<char> {
    let n1 = row_comma(s, p, e) + 1;
    s.subrange(n1, find_from(s, n1, row_core_end(s, p, e), ','))
}

/// The name a good row binds, after optional normalization.
pub open spec fn row_value(s: Seq<char>, p: int, e: int, normalize: bool) -> Seq<char> {
    if normalize {
        normalize_spec(row_raw_name(s, p, e))
    } else {
        row_raw_name(s, p, e)
    }
}

/// The table read from the lines of `s[p..]`, on top of the entries in
/// `acc`. `None` as soon as one row is bad.
pub open spec fn load_from(
    s: Seq<char>,
    p: int,
    acc: Map<u32, Seq<char>>,
    normalize: bool,
) -> Option<Map<u32, Seq<char>>>
    decreases s.len() - p,
    when 0 <= p <= s.len()
    via load_from_decreases
{
    if p >= s.len() {
        Some(acc)
    } else {
        let e = find_from(s, p, s.len() as int, '\n');
        let next = if e == s.len() {
            e
        } else {
            e + 1
        };
        if row_is_bad(s, p, e) {
            None
        } else if row_is_skip(s, p, e) {
            load_from(s, next, acc, normalize)
        } else {
            load_from(s, next, acc.insert(row_key(s, p, e), row_value(s, p, e, normalize)), normalize)
        }
    }
}

#[via_fn]
proof fn load_from_decreases(s: Seq<char>, p: int, acc: Map<u32, Seq<char>>, normalize: bool) {
    if 0 <= p < s.len() {
        lemma_find_from(s, p, s.len() as int, '\n');
    }
}

/// What loading one table file yields: the marker is demanded first, then
/// the rows are folded in order, later entries overriding earlier ones.
pub open spec fn parse_csv_spec(content: Seq<char>, normalize: bool) -> Result<
    Map<u32, Seq<char>>,
    CsvError,
> {
    if content.len() == 0 || content[0] != '\u{FEFF}' {
        Err(CsvError::MissingMarker)
    } else {
        match load_from(content, 1, Map::empty(), normalize) {
            Some(m) => Ok(m),
            None => Err(CsvError::BadRow),
        }
    }
}

/// Parses the text of one table file. The text must open with the
/// byte-order marker (`'\u{FEFF}'` once the bytes are decoded); each
/// remaining line contributes one entry, as [`parse_csv_spec`] states.
#[verifier::rlimit(50)]
pub fn parse_csv(content: &str, normalize: bool) -> (r: Result<Table, CsvError>)
    ensures
        r is Ok <==> parse_csv_spec(content@, normalize) is Ok,
        r matches Ok(t) ==> t@ == parse_csv_spec(content@, normalize)->Ok_0,
        r matches Err(err) ==> parse_csv_spec(content@, normalize) == Err::<
            Map<u32, Seq<char>>,
            CsvError,
        >(err),
{
    if !check_bom(content) {
        return Err(CsvError::MissingMarker);
    }
    let n = content.unicode_len();
    let mut table = Table::new();
    let mut p: usize = 1;
    while p < n
        invariant
            1 <= p <= n,
            n == content@.len(),
            content@[0] == '\u{FEFF}',
            load_from(content@, 1, Map::empty(), normalize) == load_from(
                content@,
                p as int,
                table@,
                normalize,
            ),
        decreases n - p,
    {
        let e = find_from_exec(content, p, n, '\n');
        proof {
            lemma_find_from(content@, p as int, n as int, '\n');
        }
        let a = skip_spaces_exec(content, p, e);
        proof {
            lemma_skip_spaces(content@, p as int, e as int);
        }
        let b = trim_back_exec(content, a, e);
        proof {
            lemma_trim_back(content@, a as int, e as int);
        }
        let cend = find_from_exec(content, a, b, ';');
        proof {
            lemma_find_from(content@, a as int, b as int, ';');
        }
        if cend > a {
            let comma = find_from_exec(content, a, cend, ',');
            proof {
                lemma_find_from(content@, a as int, cend as int, ',');
            }
            if comma == cend {
                proof {
                    assert(row_is_bad(content@, p as int, e as int));
                    assert(load_from(content@, p as int, table@, normalize) is None);
                }
                return Err(CsvError::BadRow);
            }
            match parse_index(content, a, comma) {
                None => {
                    proof {
                        assert(!row_index_ok(content@, p as int, e as int));
                        assert(row_is_bad(content@, p as int, e as int));
                        assert(load_from(content@, p as int, table@, normalize) is None);
                    }
                    return Err(CsvError::BadRow);
                },
                Some(key) => {
                    let n1 = comma + 1;
                    let n2 = find_from_exec(content, n1, cend, ',');
                    proof {
                        lemma_find_from(content@, n1 as int, cend as int, ',');
                    }
                    let raw = content.substring_char(n1, n2);
                    let value = if normalize {
                        normalize_name(raw)
                    } else {
                        raw.to_owned()
                    };
                    table.insert(key, value);
                },
            }
        }
        p = if e == n {
            n
        } else {
            e + 1
        };
    }
    Ok(table)
}

/// One family's table: a mapping from a numeric index to its display name.
pub struct Table {
    entries: Vec<(u32, String)>,
}

impl View for Table {
    type V = Map<u32, Seq<char>>;

    closed spec fn view(&self) -> Map<u32, Seq<char>> {
        entries_view(self.entries@)
    }
}

impl Table {
    /// An empty table.
    pub fn new() -> (t: Table)
        ensures
            t@ == Map::<u32, Seq<char>>::empty(),
    {
        Table { entries: Vec::new() }
    }

    /// Binds `idx` to `name`, replacing any earlier binding of `idx`.
    pub fn insert(&mut self, idx: u32, name: String)
        ensures
            final(self)@ == old(self)@.insert(idx, name@),
    {
        self.entries.push((idx, name));
        proof {
            assert(self.entries@.drop_last() =~= old(self).entries@);
        }
    }

    /// The name bound to `idx`, or `None` when the table has no entry for it.
    pub fn get(&self, idx: u32) -> (r: Option<&String>)
        ensures
            match r {
                Some(name) => self@.contains_key(idx) && name@ == self@[idx],
                None => !self@.contains_key(idx),
            },
    {
        let n = self.entries.len();
        let mut i: usize = n;
        while i > 0
            invariant
                i <= n,
                n == self.entries.len(),
                forall|j: int| i <= j < n ==> self.entries@[j].0 != idx,
            decreases i,
        {
            i = i - 1;
            if self.entries[i].0 == idx {
                proof {
                    lemma_entries_view_found(self.entries@, i as int);
                }
                return Some(&self.entries[i].1);
            }
        }
        proof {
            lemma_entries_view_absent(self.entries@, idx);
        }
        None
    }
}

} // verus!
