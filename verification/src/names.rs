//! Which table families are loaded, and the run's options.
//!
//! A candidate family (the upper-cased stem of a table file) is loaded when
//! it is named in the explicit include list; it is refused when it is named
//! in the explicit exclude list; otherwise it is loaded exactly when it
//! belongs to one of the two built-in default groups: the per-character
//! group and the global group.

use vstd::prelude::*;

use crate::text::str_eq;

verus! {

/// Options of one run: the explicit include and exclude lists for family
/// selection, whether table names are normalized, and whether a default
/// scope marker is synthesized for scope-less per-character references.
pub struct Opt {
    pub includes: Vec<String>,
    pub excludes: Vec<String>,
    pub normalize: bool,
    pub explict_target: bool,
}

/// The per-character group: families whose indices are scoped to one actor.
pub open spec fn spec_is_chara_csv(name: Seq<char>) -> bool {
    ||| name == "ABL"@
    ||| name == "BASE"@
    ||| name == "CFLAG"@
    ||| name == "EX"@
    ||| name == "EXP"@
    ||| name == "JUEL"@
    ||| name == "MARK"@
    ||| name == "SOURCE"@
    ||| name == "STAIN"@
    ||| name == "TALENT"@
    ||| name == "CSTR"@
    ||| name == "EQUIP"@
    ||| name == "PALAM"@
    ||| name == "UP"@
    ||| name == "DOWN"@
    ||| name == "UPBASE"@
    ||| name == "DOWNBASE"@
    ||| name == "NOWEX"@
    ||| name == "TCVAR"@
}

/// The global group: families whose indices are scoped to the whole run.
pub open spec fn spec_is_global_csv(name: Seq<char>) -> bool {
    ||| name == "STR"@
    ||| name == "FLAG"@
    ||| name == "CFLAG"@
    ||| name == "TFLAG"@
    ||| name == "TEQUIP"@
}

/// The selection policy on one candidate family name.
pub open spec fn spec_is_need_csv(name: Seq<char>, includes: Seq<Seq<char>>, excludes: Seq<
    Seq<char>,
>) -> bool {
    if includes.contains(name) {
        true
    } else if excludes.contains(name) {
        false
    } else {
        spec_is_chara_csv(name) || spec_is_global_csv(name)
    }
}

/// Whether `name` is one of the per-character families.
pub fn is_chara_csv(name: &str) -> (r: bool)
    ensures
        r == spec_is_chara_csv(name@),
{
    str_eq(name, "ABL") || str_eq(name, "BASE") || str_eq(name, "CFLAG") || str_eq(name, "EX")
        || str_eq(name, "EXP") || str_eq(name, "JUEL") || str_eq(name, "MARK") || str_eq(
        name,
        "SOURCE",
    ) || str_eq(name, "STAIN") || str_eq(name, "TALENT") || str_eq(name, "CSTR") || str_eq(
        name,
        "EQUIP",
    ) || str_eq(name, "PALAM") || str_eq(name, "UP") || str_eq(name, "DOWN") || str_eq(
        name,
        "UPBASE",
    ) || str_eq(name, "DOWNBASE") || str_eq(name, "NOWEX") || str_eq(name, "TCVAR")
}

/// Whether `name` is one of the global families.
pub fn is_global_csv(name: &str) -> (r: bool)
    ensures
        r == spec_is_global_csv(name@),
{
    str_eq(name, "STR") || str_eq(name, "FLAG") || str_eq(name, "CFLAG") || str_eq(name, "TFLAG")
        || str_eq(name, "TEQUIP")
}

/// Whether `names` holds an element whose characters equal `name`'s.
fn contains_name(names: &Vec<String>, name: &str) -> (r: bool)
    ensures
        r == names.deep_view().contains(name@),
{
    let n = names.len();
    let mut i: usize = 0;
    while i < n
        invariant
            n == names.len(),
            i <= n,
            forall|k: int| 0 <= k < i ==> names.deep_view()[k] != name@,
        decreases n - i,
    {
        if str_eq(names[i].as_str(), name) {
            assert(names.deep_view()[i as int] == name@);
            return true;
        }
        i = i + 1;
    }
    assert(forall|k: int| 0 <= k < names.deep_view().len() ==> names.deep_view()[k] != name@);
    false
}

/// The selection policy: explicit includes win, then explicit excludes, then
/// the two built-in default groups.
pub fn is_need_csv(name: &str, opt: &Opt) -> (r: bool)
    ensures
        r == spec_is_need_csv(name@, opt.includes.deep_view(), opt.excludes.deep_view()),
{
    if contains_name(&opt.includes, name) {
        return true;
    }
    if contains_name(&opt.excludes, name) {
        return false;
    }
    is_chara_csv(name) || is_global_csv(name)
}

} // verus!
