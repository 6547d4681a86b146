//! The auxiliary rewrite pass: an ordered list of user-supplied regex
//! pattern/replacement pairs, applied after the resolver, each over the
//! output of the previous step. Pattern order is significant. The pass
//! itself is carried out by the regex engine; this module pins down the
//! order of application and when the pass succeeds.

use vstd::prelude::*;

use crate::resolver::resolve_spec;
use crate::store::CsvInfo;

verus! {

#[verifier::external_type_specification]
#[verifier::external_body]
pub struct ExRegex(regex::Regex);

/// Whether a pattern compiles; compilation success depends on the pattern
/// text alone.
pub uninterp spec fn regex_valid(pat: Seq<char>) -> bool;

/// The pattern a compiled regex was built from.
pub uninterp spec fn pattern_of(re: regex::Regex) -> Seq<char>;

/// Name of the text that one whole-text regex replacement produces; a
/// function of the pattern, the replacement template (capture-group
/// back-references included) and the input text alone.
pub uninterp spec fn regex_applied(pat: Seq<char>, rep: Seq<char>, text: Seq<char>) -> Seq<char>;

/// Relies on `regex::Regex::new`: whether a pattern compiles depends on the
/// pattern text alone, and the compiled value stands for that pattern.
#[verifier::external_body]
fn regex_new(pat: &str) -> (r: Option<regex::Regex>)
    ensures
        r is Some <==> regex_valid(pat@),
        r matches Some(re) ==> pattern_of(re) == pat@,
{
    regex::Regex::new(pat).ok()
}

/// Relies on `regex::Regex::replace_all` with a string replacement: every
/// non-overlapping match is replaced, and the result is a function of the
/// pattern, the replacement template and the text alone.
#[verifier::external_body]
fn regex_replace_all(re: &regex::Regex, text: &str, rep: &str) -> (r: String)
    ensures
        r@ == regex_applied(pattern_of(*re), rep@, text@),
{
    re.replace_all(text, rep).into_owned()
}

/// One auxiliary rewrite: a regex pattern and its replacement template.
pub struct RegexPat {
    pub regex: String,
    pub replace: String,
}

/// The pattern/replacement texts a rewrite list stands for.
pub open spec fn pats_view(pats: Seq<RegexPat>) -> Seq<(Seq<char>, Seq<char>)> {
    pats.map_values(|p: RegexPat| (p.regex@, p.replace@))
}

/// Whether every pattern of the list compiles.
pub open spec fn pats_valid(pats: Seq<(Seq<char>, Seq<char>)>) -> bool {
    forall|i: int| 0 <= i < pats.len() ==> regex_valid(pats[i].0)
}

/// The text after the rewrites are applied in order, each over the output
/// of the one before it.
pub open spec fn apply_patterns_spec(pats: Seq<(Seq<char>, Seq<char>)>, text: Seq<char>) -> Seq<
    char,
>
    decreases pats.len(),
{
    if pats.len() == 0 {
        text
    } else {
        apply_patterns_spec(pats.drop_first(), regex_applied(pats[0].0, pats[0].1, text))
    }
}

/// Applies the rewrite list to `text`, in order. `None` when some pattern
/// does not compile: a malformed rewrite list is fatal, never skipped.
pub fn apply_patterns(pats: &Vec<RegexPat>, text: String) -> (r: Option<String>)
    ensures
        r is Some <==> pats_valid(pats_view(pats@)),
        r matches Some(t) ==> t@ == apply_patterns_spec(pats_view(pats@), text@),
{
    let ghost pv = pats_view(pats@);
    let n = pats.len();
    let mut cur = text;
    let mut i: usize = 0;
    proof {
        assert(pv.skip(0) =~= pv);
    }
    while i < n
        invariant
            i <= n,
            n == pats.len(),
            pv == pats_view(pats@),
            pv.len() == n,
            forall|k: int| 0 <= k < i ==> regex_valid(pv[k].0),
            apply_patterns_spec(pv, text@) == apply_patterns_spec(pv.skip(i as int), cur@),
        decreases n - i,
    {
        proof {
            assert(pv[i as int] == (pats@[i as int].regex@, pats@[i as int].replace@));
        }
        match regex_new(pats[i].regex.as_str()) {
            None => {
                return None;
            },
            Some(re) => {
                cur = regex_replace_all(&re, cur.as_str(), pats[i].replace.as_str());
                proof {
                    assert(pv.skip(i as int).drop_first() =~= pv.skip(i + 1));
                    assert(pv.skip(i as int)[0] == pv[i as int]);
                }
            },
        }
        i = i + 1;
    }
    proof {
        assert(pv.skip(n as int) =~= Seq::<(Seq<char>, Seq<char>)>::empty());
    }
    Some(cur)
}

/// Converts one text: the resolver first, then the auxiliary rewrites in
/// order over its output. `None` when a rewrite pattern does not compile.
pub fn convert_text(csv: &CsvInfo, text: &str, pats: &Vec<RegexPat>) -> (r: Option<String>)
    ensures
        r is Some <==> pats_valid(pats_view(pats@)),
        r matches Some(t) ==> t@ == apply_patterns_spec(
            pats_view(pats@),
            resolve_spec(text@, csv@, csv.spec_explict_target()),
        ),
{
    let resolved = csv.replace_all(text);
    apply_patterns(pats, resolved)
}

} // verus!
