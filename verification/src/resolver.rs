//! The reference resolver: scans text for variable-reference tokens and
//! substitutes resolved names.
//!
//! A token is `BASE[:SCOPE]:INDEX`: `BASE` is a maximal run of characters
//! other than the structural delimiters `( ) { } [ % :`, space and newline;
//! the optional `:SCOPE` holds a maximal nonempty run of characters other
//! than `( ) {`, space, newline and `:`; `INDEX` is a maximal nonempty run
//! of decimal digits. Scanning is left to right and non-overlapping, and a
//! form with a scope is preferred over one without. Replacement text is
//! never re-scanned.
//!
//! Resolution of one token: a known display-name suffix is stripped from
//! the base, the static alias table is applied, and the family so named is
//! looked up in the store. A family miss leaves the whole token unchanged;
//! an index miss leaves the digits in place; otherwise the name replaces
//! the digits. An index too large for `u32` behaves as a full miss.

use vstd::prelude::*;

use crate::names::{is_chara_csv, spec_is_chara_csv};
use crate::store::CsvInfo;
use crate::table::Table;
use crate::text::{digits_val, is_digit_char, is_digit_char_exec, parse_index, str_eq};

verus! {

/// A character `BASE` may hold: anything but a structural delimiter.
pub open spec fn is_base_char(c: char) -> bool {
    c != '(' && c != ')' && c != '{' && c != '}' && c != '[' && c != '%' && c != ':' && c != ' '
        && c != '\n'
}

/// A character `SCOPE` may hold.
pub open spec fn is_scope_char(c: char) -> bool {
    c != ' ' && c != '(' && c != ')' && c != '{' && c != '\n' && c != ':'
}

/// Exec counterpart of [`is_base_char`].
pub fn is_base_char_exec(c: char) -> (r: bool)
    ensures
        r == is_base_char(c),
{
    c != '(' && c != ')' && c != '{' && c != '}' && c != '[' && c != '%' && c != ':' && c != ' '
        && c != '\n'
}

/// Exec counterpart of [`is_scope_char`].
pub fn is_scope_char_exec(c: char) -> (r: bool)
    ensures
        r == is_scope_char(c),
{
    c != ' ' && c != '(' && c != ')' && c != '{' && c != '\n' && c != ':'
}

/// End of the maximal run of base characters starting at `i`.
pub open spec fn base_run_end(s: Seq<char>, i: int) -> int
    decreases s.len() - i,
    when 0 <= i <= s.len()
{
    if i == s.len() || !is_base_char(s[i]) {
        i
    } else {
        base_run_end(s, i + 1)
    }
}

/// End of the maximal run of scope characters starting at `i`.
pub open spec fn scope_run_end(s: Seq<char>, i: int) -> int
    decreases s.len() - i,
    when 0 <= i <= s.len()
{
    if i == s.len() || !is_scope_char(s[i]) {
        i
    } else {
        scope_run_end(s, i + 1)
    }
}

/// End of the maximal run of digits starting at `i`.
pub open spec fn digit_run_end(s: Seq<char>, i: int) -> int
    decreases s.len() - i,
    when 0 <= i <= s.len()
{
    if i == s.len() || !is_digit_char(s[i]) {
        i
    } else {
        digit_run_end(s, i + 1)
    }
}

/// What [`base_run_end`] returns: the run's bounds and content.
pub proof fn lemma_base_run_end(s: Seq<char>, i: int)
    requires
        0 <= i <= s.len(),
    ensures
        i <= base_run_end(s, i) <= s.len(),
        base_run_end(s, i) < s.len() ==> !is_base_char(s[base_run_end(s, i)]),
        forall|k: int| i <= k < base_run_end(s, i) ==> is_base_char(s[k]),
    decreases s.len() - i,
{
    if i < s.len() && is_base_char(s[i]) {
        lemma_base_run_end(s, i + 1);
    }
}

/// What [`scope_run_end`] returns: the run's bounds and content.
pub proof fn lemma_scope_run_end(s: Seq<char>, i: int)
    requires
        0 <= i <= s.len(),
    ensures
        i <= scope_run_end(s, i) <= s.len(),
        scope_run_end(s, i) < s.len() ==> !is_scope_char(s[scope_run_end(s, i)]),
        forall|k: int| i <= k < scope_run_end(s, i) ==> is_scope_char(s[k]),
    decreases s.len() - i,
{
    if i < s.len() && is_scope_char(s[i]) {
        lemma_scope_run_end(s, i + 1);
    }
}

/// What [`digit_run_end`] returns: the run's bounds and content.
pub proof fn lemma_digit_run_end(s: Seq<char>, i: int)
    requires
        0 <= i <= s.len(),
    ensures
        i <= digit_run_end(s, i) <= s.len(),
        digit_run_end(s, i) < s.len() ==> !is_digit_char(s[digit_run_end(s, i)]),
        forall|k: int| i <= k < digit_run_end(s, i) ==> is_digit_char(s[k]),
    decreases s.len() - i,
{
    if i < s.len() && is_digit_char(s[i]) {
        lemma_digit_run_end(s, i + 1);
    }
}

/// A run of base characters up to a bound that ends it is the maximal run.
pub proof fn lemma_base_run_end_is(s: Seq<char>, i: int, e: int)
    requires
        0 <= i <= e <= s.len(),
        forall|k: int| i <= k < e ==> is_base_char(s[k]),
        e == s.len() || !is_base_char(s[e]),
    ensures
        base_run_end(s, i) == e,
    decreases e - i,
{
    if i < e {
        lemma_base_run_end_is(s, i + 1, e);
    }
}

/// A run of scope characters up to a bound that ends it is the maximal run.
pub proof fn lemma_scope_run_end_is(s: Seq<char>, i: int, e: int)
    requires
        0 <= i <= e <= s.len(),
        forall|k: int| i <= k < e ==> is_scope_char(s[k]),
        e == s.len() || !is_scope_char(s[e]),
    ensures
        scope_run_end(s, i) == e,
    decreases e - i,
{
    if i < e {
        lemma_scope_run_end_is(s, i + 1, e);
    }
}

/// A run of digits up to a bound that ends it is the maximal run.
pub proof fn lemma_digit_run_end_is(s: Seq<char>, i: int, e: int)
    requires
        0 <= i <= e <= s.len(),
        forall|k: int| i <= k < e ==> is_digit_char(s[k]),
        e == s.len() || !is_digit_char(s[e]),
    ensures
        digit_run_end(s, i) == e,
    decreases e - i,
{
    if i < e {
        lemma_digit_run_end_is(s, i + 1, e);
    }
}

/// Whether the token starting at `i` carries an explicit scope segment:
/// after the base and its `:` there is a nonempty scope run, a further `:`,
/// and at least one digit.
pub open spec fn scope_form_at(s: Seq<char>, i: int) -> bool {
    let j = base_run_end(s, i);
    let t = scope_run_end(s, j + 1);
    &&& t > j + 1
    &&& t < s.len()
    &&& s[t] == ':'
    &&& t + 1 < s.len()
    &&& is_digit_char(s[t + 1])
}

/// Whether a variable-reference token starts exactly at `i`: a nonempty
/// base run, a `:`, then either the scope form or directly a digit.
pub open spec fn match_at(s: Seq<char>, i: int) -> bool {
    let j = base_run_end(s, i);
    &&& j > i
    &&& j < s.len()
    &&& s[j] == ':'
    &&& (scope_form_at(s, i) || (j + 1 < s.len() && is_digit_char(s[j + 1])))
}

/// Where the digits of the token at `i` start; the scope form is preferred.
pub open spec fn idx_start(s: Seq<char>, i: int) -> int {
    if scope_form_at(s, i) {
        scope_run_end(s, base_run_end(s, i) + 1) + 1
    } else {
        base_run_end(s, i) + 1
    }
}

/// End of the token at `i`: the digits run to their maximal extent.
pub open spec fn match_end(s: Seq<char>, i: int) -> int {
    digit_run_end(s, idx_start(s, i))
}

/// The token's base segment.
pub open spec fn token_base(s: Seq<char>, i: int) -> Seq<char> {
    s.subrange(i, base_run_end(s, i))
}

/// The token's scope segment, leading `:` included, when it has one.
pub open spec fn token_scope(s: Seq<char>, i: int) -> Option<Seq<char>> {
    if scope_form_at(s, i) {
        Some(s.subrange(base_run_end(s, i), scope_run_end(s, base_run_end(s, i) + 1)))
    } else {
        None
    }
}

/// The token's index digits.
pub open spec fn token_idx(s: Seq<char>, i: int) -> Seq<char> {
    s.subrange(idx_start(s, i), match_end(s, i))
}

/// A matched token reaches past its start and stays within the text, and
/// its digits are nonempty.
pub proof fn lemma_match_bounds(s: Seq<char>, i: int)
    requires
        0 <= i <= s.len(),
        match_at(s, i),
    ensures
        i < base_run_end(s, i) < idx_start(s, i) < match_end(s, i) <= s.len(),
        token_idx(s, i).len() > 0,
        forall|k: int| idx_start(s, i) <= k < match_end(s, i) ==> is_digit_char(s[k]),
{
    let j = base_run_end(s, i);
    lemma_base_run_end(s, i);
    if scope_form_at(s, i) {
        lemma_scope_run_end(s, j + 1);
        lemma_digit_run_end(s, idx_start(s, i));
    } else {
        lemma_digit_run_end(s, j + 1);
    }
}

/// Reconstruction of the raw token text from its segments.
pub open spec fn token_raw(base: Seq<char>, scope: Option<Seq<char>>, idx: Seq<char>) -> Seq<
    char,
> {
    base + (match scope {
        Some(sc) => sc,
        None => Seq::empty(),
    }) + seq![':'] + idx
}

/// The segments of the token at `i` reassemble to exactly the matched text.
pub proof fn lemma_token_raw(s: Seq<char>, i: int)
    requires
        0 <= i <= s.len(),
        match_at(s, i),
    ensures
        token_raw(token_base(s, i), token_scope(s, i), token_idx(s, i)) == s.subrange(
            i,
            match_end(s, i),
        ),
{
    lemma_match_bounds(s, i);
    let j = base_run_end(s, i);
    if scope_form_at(s, i) {
        let t = scope_run_end(s, j + 1);
        lemma_scope_run_end(s, j + 1);
        assert(token_raw(token_base(s, i), token_scope(s, i), token_idx(s, i)) =~= s.subrange(
            i,
            match_end(s, i),
        ));
    } else {
        assert(token_raw(token_base(s, i), token_scope(s, i), token_idx(s, i)) =~= s.subrange(
            i,
            match_end(s, i),
        ));
    }
}

/// The family name once the display-name suffix `NAME` is stripped.
pub open spec fn strip_name_suffix(base: Seq<char>) -> Seq<char> {
    if base.len() >= 4 && base.subrange(base.len() - 4, base.len() as int) == "NAME"@ {
        base.take(base.len() - 4)
    } else {
        base
    }
}

/// The static alias table: surface names that share another family's data.
pub open spec fn alias_of(name: Seq<char>) -> Seq<char> {
    if name == "PALAM"@ || name == "UP"@ || name == "DOWN"@ {
        "JUEL"@
    } else if name == "NOWEX"@ {
        "EX"@
    } else if name == "UPBASE"@ || name == "DOWNBASE"@ {
        "BASE"@
    } else {
        name
    }
}

/// The family a base segment resolves against: suffix stripping, then the
/// alias table.
pub open spec fn family_of(base: Seq<char>) -> Seq<char> {
    alias_of(strip_name_suffix(base))
}

/// The scope text written out for a resolved token: the explicit scope when
/// one was matched; otherwise the synthesized `:TARGET` marker when
/// explicit-scope mode is on and the family is per-character; otherwise
/// nothing.
pub open spec fn synth_scope(fam: Seq<char>, scope: Option<Seq<char>>, et: bool) -> Seq<char> {
    match scope {
        Some(sc) => sc,
        None => if et && spec_is_chara_csv(fam) {
            ":TARGET"@
        } else {
            Seq::empty()
        },
    }
}

/// What one token resolves to. A family miss, or an index too large for
/// `u32`, leaves the raw token unchanged; an index with no entry keeps its
/// digits; otherwise the table's name replaces the digits.
pub open spec fn resolve_groups(
    base: Seq<char>,
    scope: Option<Seq<char>>,
    idx: Seq<char>,
    st: Map<Seq<char>, Map<u32, Seq<char>>>,
    et: bool,
) -> Seq<char> {
    let fam = family_of(base);
    if !st.contains_key(fam) {
        token_raw(base, scope, idx)
    } else if digits_val(idx) > u32::MAX {
        token_raw(base, scope, idx)
    } else {
        let prefix = base + synth_scope(fam, scope, et) + seq![':'];
        let n = digits_val(idx) as u32;
        if st[fam].contains_key(n) {
            prefix + st[fam][n]
        } else {
            prefix + idx
        }
    }
}

/// The resolver's output for the suffix of `s` that starts at `p`: tokens
/// are replaced, everything else is copied, left to right, and replacement
/// text is never re-scanned.
pub open spec fn resolve_from(
    s: Seq<char>,
    p: int,
    st: Map<Seq<char>, Map<u32, Seq<char>>>,
    et: bool,
) -> Seq<char>
    decreases s.len() - p,
    when 0 <= p <= s.len()
    via resolve_from_decreases
{
    if p >= s.len() {
        Seq::empty()
    } else if match_at(s, p) {
        resolve_groups(token_base(s, p), token_scope(s, p), token_idx(s, p), st, et)
            + resolve_from(s, match_end(s, p), st, et)
    } else {
        seq![s[p]] + resolve_from(s, p + 1, st, et)
    }
}

#[via_fn]
proof fn resolve_from_decreases(
    s: Seq<char>,
    p: int,
    st: Map<Seq<char>, Map<u32, Seq<char>>>,
    et: bool,
) {
    if 0 <= p < s.len() && match_at(s, p) {
        lemma_match_bounds(s, p);
    }
}

/// The resolver's output for a whole text.
pub open spec fn resolve_spec(
    s: Seq<char>,
    st: Map<Seq<char>, Map<u32, Seq<char>>>,
    et: bool,
) -> Seq<char> {
    resolve_from(s, 0, st, et)
}

/// The spans of one matched token within the text it was found in.
#[derive(Clone, Copy)]
pub struct Token {
    /// End of the base segment; the first `:` stands here.
    pub base_end: usize,
    /// End of the scope run, when the token has a scope; the second `:`
    /// stands here.
    pub scope_end: Option<usize>,
    /// Start of the index digits.
    pub idx_start: usize,
    /// End of the whole token.
    pub end: usize,
}

/// Whether `tok` records exactly the token the specification finds at `p`.
pub open spec fn token_matches(tok: Token, s: Seq<char>, p: int) -> bool {
    &&& match_at(s, p)
    &&& tok.base_end == base_run_end(s, p)
    &&& (tok.scope_end is Some <==> scope_form_at(s, p))
    &&& (tok.scope_end matches Some(t) ==> t as int == scope_run_end(s, tok.base_end + 1))
    &&& tok.idx_start == idx_start(s, p)
    &&& tok.end == match_end(s, p)
}

/// Exec counterpart of [`base_run_end`].
fn base_run_end_exec(s: &str, i: usize) -> (r: usize)
    requires
        i <= s@.len(),
    ensures
        r == base_run_end(s@, i as int),
{
    let n = s.unicode_len();
    let mut j: usize = i;
    while j < n && is_base_char_exec(s.get_char(j))
        invariant
            i <= j <= n,
            n == s@.len(),
            base_run_end(s@, i as int) == base_run_end(s@, j as int),
        decreases n - j,
    {
        j = j + 1;
    }
    j
}

/// Exec counterpart of [`scope_run_end`].
fn scope_run_end_exec(s: &str, i: usize) -> (r: usize)
    requires
        i <= s@.len(),
    ensures
        r == scope_run_end(s@, i as int),
{
    let n = s.unicode_len();
    let mut j: usize = i;
    while j < n && is_scope_char_exec(s.get_char(j))
        invariant
            i <= j <= n,
            n == s@.len(),
            scope_run_end(s@, i as int) == scope_run_end(s@, j as int),
        decreases n - j,
    {
        j = j + 1;
    }
    j
}

/// Exec counterpart of [`digit_run_end`].
fn digit_run_end_exec(s: &str, i: usize) -> (r: usize)
    requires
        i <= s@.len(),
    ensures
        r == digit_run_end(s@, i as int),
{
    let n = s.unicode_len();
    let mut j: usize = i;
    while j < n && is_digit_char_exec(s.get_char(j))
        invariant
            i <= j <= n,
            n == s@.len(),
            digit_run_end(s@, i as int) == digit_run_end(s@, j as int),
        decreases n - j,
    {
        j = j + 1;
    }
    j
}

/// Finds the token starting exactly at `p`, if there is one. The scope form
/// is tried first, as the pattern prefers it.
pub fn find_token(text: &str, p: usize) -> (r: Option<Token>)
    requires
        p < text@.len(),
    ensures
        match r {
            Some(tok) => token_matches(tok, text@, p as int),
            None => !match_at(text@, p as int),
        },
{
    let n = text.unicode_len();
    let j = base_run_end_exec(text, p);
    proof {
        lemma_base_run_end(text@, p as int);
    }
    if j == p || j == n {
        return None;
    }
    if text.get_char(j) != ':' {
        return None;
    }
    let t = scope_run_end_exec(text, j + 1);
    proof {
        lemma_scope_run_end(text@, j + 1);
    }
    if t > j + 1 && t < n && text.get_char(t) == ':' && t + 1 < n && is_digit_char_exec(
        text.get_char(t + 1),
    ) {
        let e = digit_run_end_exec(text, t + 1);
        return Some(Token { base_end: j, scope_end: Some(t), idx_start: t + 1, end: e });
    }
    if j + 1 < n && is_digit_char_exec(text.get_char(j + 1)) {
        let e = digit_run_end_exec(text, j + 1);
        return Some(Token { base_end: j, scope_end: None, idx_start: j + 1, end: e });
    }
    None
}

/// The alias table: maps a surface name onto the family its data lives
/// under.
fn alias_key<'a>(name: &'a str) -> (r: &'a str)
    ensures
        r@ == alias_of(name@),
{
    if str_eq(name, "PALAM") || str_eq(name, "UP") || str_eq(name, "DOWN") {
        "JUEL"
    } else if str_eq(name, "NOWEX") {
        "EX"
    } else if str_eq(name, "UPBASE") || str_eq(name, "DOWNBASE") {
        "BASE"
    } else {
        name
    }
}

/// Strips the display-name suffix from the base segment, when it ends in
/// one.
fn strip_suffix<'a>(base: &'a str) -> (r: &'a str)
    ensures
        r@ == strip_name_suffix(base@),
{
    let n = base.unicode_len();
    if n >= 4 && base.get_char(n - 4) == 'N' && base.get_char(n - 3) == 'A' && base.get_char(
        n - 2,
    ) == 'M' && base.get_char(n - 1) == 'E' {
        proof {
            reveal_strlit("NAME");
            assert(base@.subrange(n - 4, n as int) =~= "NAME"@);
        }
        base.substring_char(0, n - 4)
    } else {
        proof {
            reveal_strlit("NAME");
            if base@.len() >= 4 && base@.subrange(n - 4, n as int) == "NAME"@ {
                let sub = base@.subrange(n - 4, n as int);
                assert(sub[0] == base@[n - 4]);
                assert(sub[1] == base@[n - 3]);
                assert(sub[2] == base@[n - 2]);
                assert(sub[3] == base@[n - 1]);
            }
        }
        base
    }
}

impl CsvInfo {
    /// Resolves the one token `tok` records at `p`, yielding its
    /// replacement text as [`resolve_groups`] states it.
    pub fn resolve_token(&self, text: &str, p: usize, tok: &Token) -> (r: String)
        requires
            p < text@.len(),
            token_matches(*tok, text@, p as int),
        ensures
            r@ == resolve_groups(
                token_base(text@, p as int),
                token_scope(text@, p as int),
                token_idx(text@, p as int),
                self@,
                self.spec_explict_target(),
            ),
    {
        proof {
            lemma_match_bounds(text@, p as int);
            lemma_token_raw(text@, p as int);
        }
        let base = text.substring_char(p, tok.base_end);
        let stripped = strip_suffix(base);
        let key = alias_key(stripped);
        match self.get_family(key) {
            None => {
                let raw = text.substring_char(p, tok.end);
                raw.to_owned()
            },
            Some(table) => {
                match parse_index(text, tok.idx_start, tok.end) {
                    None => {
                        let raw = text.substring_char(p, tok.end);
                        raw.to_owned()
                    },
                    Some(v) => {
                        let mut out = String::new();
                        out.append(base);
                        match tok.scope_end {
                            Some(t) => {
                                out.append(text.substring_char(tok.base_end, t));
                            },
                            None => {
                                if self.explict_target() && is_chara_csv(key) {
                                    out.append(":TARGET");
                                }
                            },
                        }
                        out.append(":");
                        proof {
                            reveal_strlit(":");
                            assert(":"@ =~= seq![':']);
                        }
                        match table.get(v) {
                            Some(name) => {
                                out.append(name.as_str());
                            },
                            None => {
                                out.append(text.substring_char(tok.idx_start, tok.end));
                            },
                        }
                        proof {
                            assert(out@ =~= resolve_groups(
                                token_base(text@, p as int),
                                token_scope(text@, p as int),
                                token_idx(text@, p as int),
                                self@,
                                self.spec_explict_target(),
                            ));
                        }
                        out
                    },
                }
            },
        }
    }

    /// Resolves every token in `text`, left to right and without
    /// re-scanning replacement text; unmatched text is copied verbatim.
    pub fn replace_all(&self, text: &str) -> (out: String)
        ensures
            out@ == resolve_spec(text@, self@, self.spec_explict_target()),
    {
        let n = text.unicode_len();
        let mut out = String::new();
        let mut p: usize = 0;
        while p < n
            invariant
                p <= n,
                n == text@.len(),
                resolve_from(text@, 0, self@, self.spec_explict_target()) == out@ + resolve_from(
                    text@,
                    p as int,
                    self@,
                    self.spec_explict_target(),
                ),
            decreases n - p,
        {
            let ghost out0 = out@;
            let ghost p0 = p as int;
            match find_token(text, p) {
                Some(tok) => {
                    proof {
                        lemma_match_bounds(text@, p as int);
                    }
                    let rep = self.resolve_token(text, p, &tok);
                    out.append(rep.as_str());
                    p = tok.end;
                },
                None => {
                    out.append(text.substring_char(p, p + 1));
                    p = p + 1;
                    proof {
                        assert(text@.subrange(p0, p0 + 1) =~= seq![text@[p0]]);
                    }
                },
            }
            proof {
                assert(out@ + resolve_from(text@, p as int, self@, self.spec_explict_target())
                    =~= out0 + resolve_from(text@, p0, self@, self.spec_explict_target()));
            }
        }
        proof {
            assert(out@ + resolve_from(text@, p as int, self@, self.spec_explict_target())
                =~= out@);
        }
        out
    }
}

} // verus!
