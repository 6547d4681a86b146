//! The table store: every loaded family's table, keyed by family name.
//!
//! The store is built once from the candidate table files, each identified
//! by its file stem (upper-cased to form the family name), filtered by the
//! selection policy, and parsed; a file whose parse fails contributes
//! nothing, so its family is simply absent and every reference to it falls
//! back to the original text. The store is immutable afterwards.

use vstd::prelude::*;

use crate::names::{is_need_csv, spec_is_need_csv, Opt};
use crate::table::{parse_csv, parse_csv_spec, Table};
use crate::text::{str_eq, to_upper, upper_seq};

verus! {

/// The mapping a family list stands for: read left to right, a later entry
/// for the same family name wins.
pub open spec fn dic_view(s: Seq<(String, Table)>) -> Map<Seq<char>, Map<u32, Seq<char>>>
    decreases s.len(),
{
    if s.len() == 0 {
        Map::empty()
    } else {
        dic_view(s.drop_last()).insert(s.last().0@, s.last().1@)
    }
}

/// A family name that appears in no entry is not in the view.
proof fn lemma_dic_view_absent(s: Seq<(String, Table)>, key: Seq<char>)
    requires
        forall|j: int| 0 <= j < s.len() ==> s[j].0@ != key,
    ensures
        !dic_view(s).contains_key(key),
    decreases s.len(),
{
    if s.len() > 0 {
        lemma_dic_view_absent(s.drop_last(), key);
    }
}

/// The last entry for a family name gives the view's value at that name.
proof fn lemma_dic_view_found(s: Seq<(String, Table)>, i: int)
    requires
        0 <= i < s.len(),
        forall|j: int| i < j < s.len() ==> s[j].0@ != s[i].0@,
    ensures
        dic_view(s).contains_key(s[i].0@),
        dic_view(s)[s[i].0@] == s[i].1@,
    decreases s.len(),
{
    if i < s.len() - 1 {
        lemma_dic_view_found(s.drop_last(), i);
    }
}

/// The store built from table files `(stem, content)` in order: the stem is
/// upper-cased to the family name; a family is present exactly when the
/// selection policy wants it and its file parses (marker present, no bad
/// row).
pub open spec fn build_dic(
    files: Seq<(Seq<char>, Seq<char>)>,
    includes: Seq<Seq<char>>,
    excludes: Seq<Seq<char>>,
    normalize: bool,
) -> Map<Seq<char>, Map<u32, Seq<char>>>
    decreases files.len(),
{
    if files.len() == 0 {
        Map::empty()
    } else {
        let rest = build_dic(files.drop_last(), includes, excludes, normalize);
        let fam = upper_seq(files.last().0);
        if spec_is_need_csv(fam, includes, excludes) && parse_csv_spec(
            files.last().1,
            normalize,
        ) is Ok {
            rest.insert(fam, parse_csv_spec(files.last().1, normalize)->Ok_0)
        } else {
            rest
        }
    }
}

/// The read-only table store, with the one resolver toggle it carries.
pub struct CsvInfo {
    dic: Vec<(String, Table)>,
    explict_target: bool,
}

impl View for CsvInfo {
    type V = Map<Seq<char>, Map<u32, Seq<char>>>;

    closed spec fn view(&self) -> Map<Seq<char>, Map<u32, Seq<char>>> {
        dic_view(self.dic@)
    }
}

impl CsvInfo {
    /// Whether a default scope marker is synthesized for scope-less
    /// references to per-character families.
    pub closed spec fn spec_explict_target(&self) -> bool {
        self.explict_target
    }

    /// Whether explicit-scope synthesis is on, for callers outside proofs.
    pub fn explict_target(&self) -> (r: bool)
        ensures
            r == self.spec_explict_target(),
    {
        self.explict_target
    }

    /// Builds the store from table files handed over as `(stem, content)`
    /// pairs, one per candidate file found under the tables directory.
    pub fn new(opt: &Opt, files: &Vec<(String, String)>) -> (r: CsvInfo)
        ensures
            r@ == build_dic(
                files.deep_view(),
                opt.includes.deep_view(),
                opt.excludes.deep_view(),
                opt.normalize,
            ),
            r.spec_explict_target() == opt.explict_target,
    {
        let ghost fv = files.deep_view();
        let mut dic: Vec<(String, Table)> = Vec::new();
        let n = files.len();
        let mut i: usize = 0;
        while i < n
            invariant
                i <= n,
                n == files.len(),
                fv == files.deep_view(),
                fv.len() == n,
                dic_view(dic@) == build_dic(
                    fv.take(i as int),
                    opt.includes.deep_view(),
                    opt.excludes.deep_view(),
                    opt.normalize,
                ),
            decreases n - i,
        {
            let fam = to_upper(files[i].0.as_str());
            proof {
                assert(fv[i as int] == (files@[i as int].0@, files@[i as int].1@));
            }
            let ghost dic_before = dic@;
            if is_need_csv(fam.as_str(), opt) {
                match parse_csv(files[i].1.as_str(), opt.normalize) {
                    Ok(t) => {
                        dic.push((fam, t));
                        proof {
                            assert(dic@.drop_last() =~= dic_before);
                        }
                    },
                    Err(_) => {},
                }
            }
            i = i + 1;
            proof {
                assert(fv.take(i as int).drop_last() =~= fv.take(i - 1));
                assert(fv.take(i as int).last() == fv[i - 1]);
            }
        }
        proof {
            assert(fv.take(n as int) =~= fv);
        }
        CsvInfo { dic, explict_target: opt.explict_target }
    }

    /// Builds a store directly from finished tables, in order, a later
    /// entry for the same family name overriding an earlier one.
    pub fn from_tables(tables: Vec<(String, Table)>, explict_target: bool) -> (r: CsvInfo)
        ensures
            r@ == dic_view(tables@),
            r.spec_explict_target() == explict_target,
    {
        CsvInfo { dic: tables, explict_target }
    }

    /// The table of the family called `name`, or `None` when that family
    /// was not loaded.
    pub fn get_family(&self, name: &str) -> (r: Option<&Table>)
        ensures
            match r {
                Some(t) => self@.contains_key(name@) && t@ == self@[name@],
                None => !self@.contains_key(name@),
            },
    {
        let n = self.dic.len();
        let mut i: usize = n;
        while i > 0
            invariant
                i <= n,
                n == self.dic.len(),
                forall|j: int| i <= j < n ==> self.dic@[j].0@ != name@,
            decreases i,
        {
            i = i - 1;
            if str_eq(self.dic[i].0.as_str(), name) {
                proof {
                    lemma_dic_view_found(self.dic@, i as int);
                }
                return Some(&self.dic[i].1);
            }
        }
        proof {
            lemma_dic_view_absent(self.dic@, name@);
        }
        None
    }
}

} // verus!
