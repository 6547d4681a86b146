//! The resolver's laws: how a whole single-reference text resolves, for
//! every table store — hits, family misses, index misses, alias
//! redirection, display-name suffix stripping, and idempotence.

use vstd::prelude::*;

use crate::names::spec_is_chara_csv;
use crate::resolver::{
    alias_of, base_run_end, family_of, idx_start, is_base_char, is_scope_char,
    lemma_base_run_end, lemma_base_run_end_is, lemma_digit_run_end_is, lemma_scope_run_end,
    lemma_scope_run_end_is, match_at, match_end, resolve_from, resolve_groups, resolve_spec,
    scope_form_at, strip_name_suffix, token_base, token_idx, token_raw, token_scope,
};
use crate::store::build_dic;
use crate::table::parse_csv_spec;
use crate::text::{digits_val, is_digit_char, upper_seq};

verus! {

/// A text that is exactly one scope-less reference token resolves to what
/// [`resolve_groups`] makes of its segments: the resolver finds the token
/// at the start and consumes the whole text.
pub proof fn lemma_single_token(
    fam: Seq<char>,
    idx: Seq<char>,
    st: Map<Seq<char>, Map<u32, Seq<char>>>,
    et: bool,
)
    requires
        fam.len() > 0,
        forall|k: int| 0 <= k < fam.len() ==> is_base_char(fam[k]),
        idx.len() > 0,
        forall|k: int| 0 <= k < idx.len() ==> is_digit_char(idx[k]),
    ensures
        resolve_spec(fam + seq![':'] + idx, st, et) == resolve_groups(fam, None, idx, st, et),
{
    let s = fam + seq![':'] + idx;
    let j = fam.len() as int;
    let n = s.len() as int;
    assert(s[j] == ':');
    assert(forall|k: int| 0 <= k < j ==> s[k] == fam[k]);
    lemma_base_run_end_is(s, 0, j);
    assert(forall|k: int| j + 1 <= k < n ==> s[k] == idx[k - (j + 1)]);
    assert(forall|k: int| j + 1 <= k < n ==> is_digit_char(s[k]));
    lemma_digit_run_end_is(s, j + 1, n);
    assert(forall|k: int| j + 1 <= k < n ==> is_scope_char(s[k]));
    lemma_scope_run_end_is(s, j + 1, n);
    assert(!scope_form_at(s, 0));
    assert(match_at(s, 0));
    assert(idx_start(s, 0) == j + 1);
    assert(match_end(s, 0) == n);
    assert(token_base(s, 0) =~= fam);
    assert(token_scope(s, 0) is None);
    assert(token_idx(s, 0) =~= idx);
    assert(resolve_from(s, n, st, et) =~= Seq::<char>::empty());
    assert(resolve_groups(fam, None, idx, st, et) + Seq::<char>::empty() =~= resolve_groups(
        fam,
        None,
        idx,
        st,
        et,
    ));
}

/// A reference `FAMILY:INDEX` to a loaded family with a known index
/// resolves to `FAMILY:<name>`, the name the family's table holds for that
/// index (explicit-scope synthesis off).
pub proof fn lemma_hit_resolves(fam: Seq<char>, idx: Seq<char>, st: Map<Seq<char>, Map<u32, Seq<char>>>)
    requires
        fam.len() > 0,
        forall|k: int| 0 <= k < fam.len() ==> is_base_char(fam[k]),
        idx.len() > 0,
        forall|k: int| 0 <= k < idx.len() ==> is_digit_char(idx[k]),
        family_of(fam) == fam,
        st.contains_key(fam),
        digits_val(idx) <= u32::MAX,
        st[fam].contains_key(digits_val(idx) as u32),
    ensures
        resolve_spec(fam + seq![':'] + idx, st, false) == fam + seq![':'] + st[fam][digits_val(
            idx,
        ) as u32],
{
    lemma_single_token(fam, idx, st, false);
    assert(fam + Seq::<char>::empty() + seq![':'] + st[fam][digits_val(idx) as u32] =~= fam
        + seq![':'] + st[fam][digits_val(idx) as u32]);
}

/// A reference to a family that is not loaded is left unchanged, byte for
/// byte, whatever the other settings.
pub proof fn lemma_family_miss(
    fam: Seq<char>,
    idx: Seq<char>,
    st: Map<Seq<char>, Map<u32, Seq<char>>>,
    et: bool,
)
    requires
        fam.len() > 0,
        forall|k: int| 0 <= k < fam.len() ==> is_base_char(fam[k]),
        idx.len() > 0,
        forall|k: int| 0 <= k < idx.len() ==> is_digit_char(idx[k]),
        !st.contains_key(family_of(fam)),
    ensures
        resolve_spec(fam + seq![':'] + idx, st, et) == fam + seq![':'] + idx,
{
    lemma_single_token(fam, idx, st, et);
    assert(token_raw(fam, None, idx) =~= fam + seq![':'] + idx);
}

/// A reference to a loaded family whose index has no entry keeps its
/// original digits: the output is `FAMILY:<digits>` (explicit-scope
/// synthesis off). An index too large for `u32` behaves the same way.
pub proof fn lemma_index_miss(fam: Seq<char>, idx: Seq<char>, st: Map<Seq<char>, Map<u32, Seq<char>>>)
    requires
        fam.len() > 0,
        forall|k: int| 0 <= k < fam.len() ==> is_base_char(fam[k]),
        idx.len() > 0,
        forall|k: int| 0 <= k < idx.len() ==> is_digit_char(idx[k]),
        family_of(fam) == fam,
        st.contains_key(fam),
        digits_val(idx) <= u32::MAX ==> !st[fam].contains_key(digits_val(idx) as u32),
    ensures
        resolve_spec(fam + seq![':'] + idx, st, false) == fam + seq![':'] + idx,
{
    lemma_single_token(fam, idx, st, false);
    assert(token_raw(fam, None, idx) =~= fam + seq![':'] + idx);
    if digits_val(idx) <= u32::MAX {
        assert(fam + Seq::<char>::empty() + seq![':'] + idx =~= fam + seq![':'] + idx);
    }
}

/// Alias redirection: a reference whose base is an alias source resolves
/// against the alias target's table, not against any table under the
/// literal base name (explicit-scope synthesis off).
pub proof fn lemma_alias_redirect(
    base: Seq<char>,
    idx: Seq<char>,
    st: Map<Seq<char>, Map<u32, Seq<char>>>,
)
    requires
        base.len() > 0,
        forall|k: int| 0 <= k < base.len() ==> is_base_char(base[k]),
        idx.len() > 0,
        forall|k: int| 0 <= k < idx.len() ==> is_digit_char(idx[k]),
        strip_name_suffix(base) == base,
        alias_of(base) != base,
        st.contains_key(alias_of(base)),
        digits_val(idx) <= u32::MAX,
        st[alias_of(base)].contains_key(digits_val(idx) as u32),
    ensures
        resolve_spec(base + seq![':'] + idx, st, false) == base + seq![':'] + st[alias_of(
            base,
        )][digits_val(idx) as u32],
{
    lemma_single_token(base, idx, st, false);
    assert(family_of(base) == alias_of(base));
    assert(base + Seq::<char>::empty() + seq![':'] + st[alias_of(base)][digits_val(idx) as u32]
        =~= base + seq![':'] + st[alias_of(base)][digits_val(idx) as u32]);
}

/// Display-name suffix stripping: a reference whose base ends in the
/// designated `NAME` suffix resolves against the family obtained by
/// stripping that suffix, while the suffixed base itself is what the
/// output repeats (explicit-scope synthesis off).
pub proof fn lemma_suffix_strip(
    fam: Seq<char>,
    idx: Seq<char>,
    st: Map<Seq<char>, Map<u32, Seq<char>>>,
)
    requires
        fam.len() > 0,
        forall|k: int| 0 <= k < fam.len() ==> is_base_char(fam[k]),
        idx.len() > 0,
        forall|k: int| 0 <= k < idx.len() ==> is_digit_char(idx[k]),
        alias_of(fam) == fam,
        st.contains_key(fam),
        digits_val(idx) <= u32::MAX,
        st[fam].contains_key(digits_val(idx) as u32),
    ensures
        resolve_spec(fam + "NAME"@ + seq![':'] + idx, st, false) == fam + "NAME"@ + seq![':']
            + st[fam][digits_val(idx) as u32],
{
    reveal_strlit("NAME");
    let base = fam + "NAME"@;
    assert(base.len() == fam.len() + 4);
    assert(forall|k: int| 0 <= k < fam.len() ==> base[k] == fam[k]);
    assert(base[base.len() - 4] == 'N');
    assert(base[base.len() - 3] == 'A');
    assert(base[base.len() - 2] == 'M');
    assert(base[base.len() - 1] == 'E');
    assert(forall|k: int| 0 <= k < base.len() ==> is_base_char(base[k]));
    assert(base.subrange(base.len() - 4, base.len() as int) =~= "NAME"@);
    assert(base.take(base.len() - 4) =~= fam);
    assert(strip_name_suffix(base) == fam);
    lemma_single_token(base, idx, st, false);
    assert((base + seq![':'] + idx) =~= (fam + "NAME"@ + seq![':'] + idx));
    assert(base + Seq::<char>::empty() + seq![':'] + st[fam][digits_val(idx) as u32] =~= fam
        + "NAME"@ + seq![':'] + st[fam][digits_val(idx) as u32]);
}

/// A text in which no token matches anywhere is a fixed point of the
/// resolver.
pub proof fn lemma_no_match_fixed_point(
    s: Seq<char>,
    st: Map<Seq<char>, Map<u32, Seq<char>>>,
    et: bool,
)
    requires
        forall|p: int| 0 <= p < s.len() ==> !match_at(s, p),
    ensures
        resolve_spec(s, st, et) == s,
{
    lemma_no_match_from(s, 0, st, et);
    assert(s.skip(0) =~= s);
}

/// No token matches anywhere in a text of the shape the resolver emits for
/// one resolved reference: a base run, its `:`, an optional scope segment
/// with a further `:`, then a tail that holds no `:` and does not start
/// with a digit. `m` is the position of the second `:` when there is a
/// scope segment, and equals `j` when there is none.
proof fn lemma_resolved_shape_no_match(s: Seq<char>, j: int, m: int)
    requires
        0 <= j < s.len(),
        s[j] == ':',
        forall|k: int| 0 <= k < j ==> is_base_char(s[k]),
        m == j || (j + 1 < m < s.len() && s[m] == ':' && !is_digit_char(s[j + 1]) && (forall|
            k: int,
        |
            j < k < m ==> is_base_char(s[k]) && is_scope_char(s[k]))),
        forall|k: int| (if m == j { j + 1 } else { m + 1 }) <= k < s.len() ==> s[k] != ':',
        (if m == j { j + 1 } else { m + 1 }) < s.len() ==> !is_digit_char(
            s[(if m == j { j + 1 } else { m + 1 })],
        ),
    ensures
        forall|p: int| 0 <= p < s.len() ==> !match_at(s, p),
{
    let n = s.len() as int;
    let q = if m == j {
        j + 1
    } else {
        m + 1
    };
    assert forall|p: int| 0 <= p < n implies !match_at(s, p) by {
        if p < j {
            lemma_base_run_end_is(s, p, j);
            if m == j {
                lemma_scope_run_end(s, j + 1);
                assert(!scope_form_at(s, p));
            } else {
                lemma_scope_run_end_is(s, j + 1, m);
                assert(!scope_form_at(s, p));
            }
        } else if p == j {
            lemma_base_run_end_is(s, p, p);
        } else if m != j && p < m {
            lemma_base_run_end_is(s, p, m);
            lemma_scope_run_end(s, m + 1);
            assert(!scope_form_at(s, p));
        } else if m != j && p == m {
            lemma_base_run_end_is(s, p, p);
        } else {
            if !is_base_char(s[p]) {
                lemma_base_run_end_is(s, p, p);
            } else {
                lemma_base_run_end(s, p);
                assert(base_run_end(s, p) >= q);
            }
        }
    }
}

/// Round-trip idempotence for a text that is one scope-less reference:
/// running the resolver a second time over its own output changes nothing,
/// provided the display name the reference may resolve to holds no `:` and
/// does not begin with a digit. (A name such as `LEVEL2` is harmless:
/// digits are recognized only directly after a `:`.)
pub proof fn lemma_idempotent_single_token(
    fam: Seq<char>,
    idx: Seq<char>,
    st: Map<Seq<char>, Map<u32, Seq<char>>>,
    et: bool,
)
    requires
        fam.len() > 0,
        forall|k: int| 0 <= k < fam.len() ==> is_base_char(fam[k]),
        idx.len() > 0,
        forall|k: int| 0 <= k < idx.len() ==> is_digit_char(idx[k]),
        ({
            let f = family_of(fam);
            (st.contains_key(f) && digits_val(idx) <= u32::MAX && st[f].contains_key(
                digits_val(idx) as u32,
            )) ==> ({
                let name = st[f][digits_val(idx) as u32];
                &&& (forall|k: int| 0 <= k < name.len() ==> name[k] != ':')
                &&& (name.len() > 0 ==> !is_digit_char(name[0]))
            })
        }),
    ensures
        resolve_spec(resolve_spec(fam + seq![':'] + idx, st, et), st, et) == resolve_spec(
            fam + seq![':'] + idx,
            st,
            et,
        ),
{
    let s0 = fam + seq![':'] + idx;
    let f = family_of(fam);
    let j = fam.len() as int;
    lemma_single_token(fam, idx, st, et);
    let out = resolve_groups(fam, None, idx, st, et);
    if !st.contains_key(f) || digits_val(idx) > u32::MAX {
        assert(token_raw(fam, None, idx) =~= s0);
    } else {
        let nval = digits_val(idx) as u32;
        let synth = et && spec_is_chara_csv(f);
        if st[f].contains_key(nval) {
            let name = st[f][nval];
            if synth {
                reveal_strlit(":TARGET");
                let tgt = ":TARGET"@;
                let o = fam + tgt + seq![':'] + name;
                assert(out =~= o);
                let m = j + 7;
                assert(o[j] == ':');
                assert(o[m] == ':');
                assert(forall|k: int| 0 <= k < j ==> o[k] == fam[k]);
                assert forall|k: int| j < k < m implies is_base_char(o[k]) && is_scope_char(
                    o[k],
                ) by {
                    assert(o[k] == tgt[k - j]);
                }
                assert(!is_digit_char(o[j + 1]));
                assert(forall|k: int| m + 1 <= k < o.len() ==> o[k] == name[k - (m + 1)]);
                lemma_resolved_shape_no_match(o, j, m);
                lemma_no_match_fixed_point(o, st, et);
            } else {
                let o = fam + seq![':'] + name;
                assert(out =~= o);
                assert(o[j] == ':');
                assert(forall|k: int| 0 <= k < j ==> o[k] == fam[k]);
                assert(forall|k: int| j + 1 <= k < o.len() ==> o[k] == name[k - (j + 1)]);
                lemma_resolved_shape_no_match(o, j, j);
                lemma_no_match_fixed_point(o, st, et);
            }
        } else {
            if synth {
                reveal_strlit(":TARGET");
                let tgt = ":TARGET"@;
                let o = fam + tgt + seq![':'] + idx;
                assert(out =~= o);
                let m = j + 7;
                let n = o.len() as int;
                assert(o[j] == ':');
                assert(o[m] == ':');
                assert(forall|k: int| 0 <= k < j ==> o[k] == fam[k]);
                lemma_base_run_end_is(o, 0, j);
                assert forall|k: int| j + 1 <= k < m implies is_scope_char(o[k]) by {
                    assert(o[k] == tgt[k - j]);
                }
                lemma_scope_run_end_is(o, j + 1, m);
                assert(forall|k: int| m + 1 <= k < n ==> o[k] == idx[k - (m + 1)]
                    && is_digit_char(o[k]));
                lemma_digit_run_end_is(o, m + 1, n);
                assert(scope_form_at(o, 0));
                assert(match_at(o, 0));
                assert(idx_start(o, 0) == m + 1);
                assert(match_end(o, 0) == n);
                assert(token_base(o, 0) =~= fam);
                assert(o.subrange(j, m) =~= tgt);
                assert(token_scope(o, 0) == Some(tgt));
                assert(token_idx(o, 0) =~= idx);
                assert(resolve_groups(fam, Some(tgt), idx, st, et) =~= o);
                assert(resolve_from(o, n, st, et) =~= Seq::<char>::empty());
                assert(resolve_spec(o, st, et) =~= o);
            } else {
                assert(out =~= s0);
            }
        }
    }
}

/// A family whose every table file fails to parse — the byte-order marker
/// is missing, or a row is bad — contributes zero entries: it is absent
/// from the store built, and every reference to it is then a miss, left
/// unchanged by [`lemma_family_miss`].
pub proof fn lemma_unparsed_family_absent(
    files: Seq<(Seq<char>, Seq<char>)>,
    includes: Seq<Seq<char>>,
    excludes: Seq<Seq<char>>,
    normalize: bool,
    fam: Seq<char>,
)
    requires
        forall|j: int|
            0 <= j < files.len() ==> (upper_seq(files[j].0) == fam ==> !(parse_csv_spec(
                files[j].1,
                normalize,
            ) is Ok)),
    ensures
        !build_dic(files, includes, excludes, normalize).contains_key(fam),
    decreases files.len(),
{
    if files.len() > 0 {
        lemma_unparsed_family_absent(files.drop_last(), includes, excludes, normalize, fam);
        assert(files[files.len() - 1] == files.last());
    }
}

/// Helper for [`lemma_no_match_fixed_point`], over every suffix.
proof fn lemma_no_match_from(
    s: Seq<char>,
    p: int,
    st: Map<Seq<char>, Map<u32, Seq<char>>>,
    et: bool,
)
    requires
        0 <= p <= s.len(),
        forall|k: int| p <= k < s.len() ==> !match_at(s, k),
    ensures
        resolve_from(s, p, st, et) == s.skip(p),
    decreases s.len() - p,
{
    if p < s.len() {
        lemma_no_match_from(s, p + 1, st, et);
        assert(seq![s[p]] + s.skip(p + 1) =~= s.skip(p));
    } else {
        assert(s.skip(p) =~= Seq::<char>::empty());
    }
}

} // verus!
