//! The package manifest: load behavior, merge policy and the declared
//! variable files, built from the raw values of the manifest's section.

use vstd::prelude::*;
use crate::classify::seq_str_views;
use crate::plan::str_eq;
use vstd::string::StrSliceExecFns;

verus! {

broadcast use vstd::string::group_string_axioms;

/// Whether the three-character list delimiter stands at position `i`.
pub open spec fn delim_at(s: Seq<char>, i: int) -> bool {
    &&& 0 <= i
    &&& i + 3 <= s.len()
    &&& s[i] == ' '
    &&& s[i + 1] == '|'
    &&& s[i + 2] == ' '
}

/// Position of the first list delimiter, or the string's length when there
/// is none.
pub open spec fn find_delim(s: Seq<char>) -> int
    decreases s.len(),
{
    if s.len() < 3 {
        s.len() as int
    } else if delim_at(s, 0) {
        0
    } else {
        1 + find_delim(s.drop_first())
    }
}

pub proof fn lemma_find_delim_bounds(s: Seq<char>)
    ensures
        0 <= find_delim(s) <= s.len(),
        find_delim(s) < s.len() ==> delim_at(s, find_delim(s)),
        forall|j: int| 0 <= j < find_delim(s) ==> !delim_at(s, j),
    decreases s.len(),
{
    if s.len() >= 3 && !delim_at(s, 0) {
        lemma_find_delim_bounds(s.drop_first());
        let f = find_delim(s);
        assert(forall|j: int|
            0 <= j < s.drop_first().len() ==> s.drop_first()[j] == s[j + 1]);
        if f < s.len() {
            assert(delim_at(s.drop_first(), f - 1));
            assert(delim_at(s, f));
        }
        assert forall|j: int| 0 <= j < f implies !delim_at(s, j) by {
            if j > 0 && delim_at(s, j) {
                assert(delim_at(s.drop_first(), j - 1));
            }
        }
    }
}

pub proof fn lemma_find_delim_at(s: Seq<char>, w: int)
    requires
        delim_at(s, w),
        forall|j: int| 0 <= j < w ==> !delim_at(s, j),
    ensures
        find_delim(s) == w,
{
    lemma_find_delim_bounds(s);
    let f = find_delim(s);
    if f < w {
        assert(!delim_at(s, f));
    }
    if f > w {
        assert(!delim_at(s, w));
    }
}

/// The variable-file list: the string split on the `" | "` delimiter.
pub open spec fn split_var_files(s: Seq<char>) -> Seq<Seq<char>>
    decreases s.len(),
{
    let f = find_delim(s);
    if 0 <= f && f + 3 <= s.len() {
        seq![s.take(f)] + split_var_files(s.skip(f + 3))
    } else {
        seq![s]
    }
}

/// The package manifest, read once per run after extraction.
pub struct Manifest {
    /// What to activate after the install: a skin, a layout, or nothing.
    pub load_type: Option<String>,
    /// The skin path or layout name to activate.
    pub load: Option<String>,
    /// Skin files whose user-set variable values are preserved.
    pub variable_files: Vec<String>,
    /// Merge into existing skins instead of replacing them.
    pub merge_skins: bool,
}

/// The view of an optional string.
pub open spec fn opt_view(o: Option<String>) -> Option<Seq<char>> {
    match o {
        Some(s) => Some(s@),
        None => None,
    }
}

/// Splits a declared variable-file list on the `" | "` delimiter.
pub fn split_variable_files(s: &str) -> (r: Vec<String>)
    ensures
        seq_str_views(r@) == split_var_files(s@),
{
    let n = s.unicode_len();
    let mut out: Vec<String> = Vec::new();
    let mut start: usize = 0;
    let mut i: usize = 0;
    proof {
        assert(seq_str_views(out@) =~= Seq::<Seq<char>>::empty());
        assert(s@.skip(0) =~= s@);
        assert(seq_str_views(out@) + split_var_files(s@) =~= split_var_files(s@));
    }
    while i < n
        invariant
            start <= i <= n,
            n == s@.len(),
            forall|j: int| start <= j < i ==> !delim_at(s@, j),
            split_var_files(s@) == seq_str_views(out@) + split_var_files(
                s@.skip(start as int),
            ),
        decreases n - i,
    {
        let is_delim = n >= 3 && i < n - 2 && s.get_char(i) == ' ' && s.get_char(i + 1) == '|'
            && s.get_char(i + 2) == ' ';
        if is_delim {
            let ghost rest = s@.skip(start as int);
            proof {
                assert(delim_at(s@, i as int));
                assert forall|j: int| 0 <= j < i - start implies !delim_at(rest, j) by {
                    assert(forall|j2: int|
                        0 <= j2 < rest.len() ==> rest[j2] == s@[j2 + start]);
                    if delim_at(rest, j) {
                        assert(delim_at(s@, j + start));
                    }
                }
                assert(delim_at(rest, i - start)) by {
                    assert(forall|j2: int|
                        0 <= j2 < rest.len() ==> rest[j2] == s@[j2 + start]);
                }
                lemma_find_delim_at(rest, i - start);
                assert(rest.take(i - start) =~= s@.subrange(start as int, i as int));
                assert(rest.skip(i - start + 3) =~= s@.skip(i + 3));
            }
            let seg = s.substring_char(start, i).to_owned();
            let ghost out0 = out@;
            out.push(seg);
            proof {
                crate::classify::lemma_seq_str_views_push(out0, out@.last());
                assert(seq_str_views(out@) =~= seq_str_views(out0).push(
                    s@.subrange(start as int, i as int),
                ));
                assert(split_var_files(rest) == seq![s@.subrange(start as int, i as int)]
                    + split_var_files(s@.skip(i + 3)));
                assert(seq_str_views(out0) + split_var_files(rest) =~= seq_str_views(out@)
                    + split_var_files(s@.skip(i + 3)));
            }
            start = i + 3;
            i = i + 3;
        } else {
            proof {
                if delim_at(s@, i as int) {
                    assert(s@[i as int] == ' ' && s@[i + 1] == '|' && s@[i + 2] == ' ');
                }
            }
            i = i + 1;
        }
    }
    let ghost rest = s@.skip(start as int);
    proof {
        assert forall|j: int| 0 <= j < rest.len() implies !delim_at(rest, j) by {
            assert(forall|j2: int| 0 <= j2 < rest.len() ==> rest[j2] == s@[j2 + start]);
            if delim_at(rest, j) {
                assert(delim_at(s@, j + start));
                assert(j + start < start || (start <= j + start < n));
            }
        }
        lemma_find_delim_bounds(rest);
        if find_delim(rest) < rest.len() {
            assert(!delim_at(rest, find_delim(rest)));
        }
        assert(split_var_files(rest) == seq![rest]);
        assert(rest =~= s@.subrange(start as int, n as int));
    }
    let seg = s.substring_char(start, n).to_owned();
    let ghost out0 = out@;
    out.push(seg);
    proof {
        crate::classify::lemma_seq_str_views_push(out0, out@.last());
        assert(seq_str_views(out@) =~= seq_str_views(out0).push(rest));
        assert(seq_str_views(out0) + split_var_files(rest) =~= seq_str_views(out@));
    }
    out
}

/// Builds the manifest from the raw values of its recognized keys: an absent
/// variable-file list yields no files, and merging is requested exactly by
/// the value `"1"`.
pub fn manifest_from_values(
    load_type: Option<String>,
    load: Option<String>,
    variable_files: Option<String>,
    merge_skins: Option<String>,
) -> (m: Manifest)
    ensures
        opt_view(m.load_type) == opt_view(load_type),
        opt_view(m.load) == opt_view(load),
        seq_str_views(m.variable_files@) == match opt_view(variable_files) {
            Some(s) => split_var_files(s),
            None => Seq::<Seq<char>>::empty(),
        },
        m.merge_skins == (opt_view(merge_skins) == Some("1"@)),
{
    let files = match &variable_files {
        Some(s) => split_variable_files(s.as_str()),
        None => Vec::new(),
    };
    let merge = match &merge_skins {
        Some(s) => str_eq(s.as_str(), "1"),
        None => false,
    };
    proof {
        if variable_files is None {
            assert(seq_str_views(files@) =~= Seq::<Seq<char>>::empty());
        }
    }
    Manifest { load_type, load, variable_files: files, merge_skins: merge }
}

} // verus!
