//! Installation planner state: the ordered, duplicate-free name lists of the
//! plugins, skins and layouts an archive contributes, and the detection of
//! the package manifest among the archive's entries.

use vstd::prelude::*;
use crate::classify::classified_component;
use crate::classify::classified_extension;
use crate::classify::classified_name;
use crate::classify::parse_zip_item;
use crate::classify::seq_str_views;
use crate::classify::split_path;
use crate::classify::split_segments;
use crate::classify::lemma_split_segments_len;
use crate::errors::InstallError;
use vstd::string::StrSliceExecFns;

verus! {

broadcast use vstd::string::group_string_axioms;

/// No two names in the list are the same.
pub open spec fn distinct_names(s: Seq<Seq<char>>) -> bool {
    forall|i: int, j: int| 0 <= i < j < s.len() ==> s[i] != s[j]
}

/// An entry whose classified name is the manifest's well-known file name.
pub open spec fn is_manifest_entry(p: Seq<char>) -> bool {
    classified_name(p) == "RMSKIN.ini"@
}

/// An entry grouped under the skins component with a non-empty name.
pub open spec fn is_skin_entry(p: Seq<char>) -> bool {
    classified_component(p) == "Skins"@ && classified_name(p).len() > 0
}

/// An entry grouped under the layouts component with a non-empty name.
pub open spec fn is_layout_entry(p: Seq<char>) -> bool {
    classified_component(p) == "Layouts"@ && classified_name(p).len() > 0
}

/// A plugin entry the platform can load: under the plugins component, in the
/// 64-bit folder, with the native binary extension.
pub open spec fn is_plugin_entry(p: Seq<char>) -> bool {
    classified_component(p) == "Plugins"@ && classified_name(p) == "64bit"@
        && classified_extension(p) == "dll"@
}

/// The bare file name of an entry: its last path segment.
pub open spec fn entry_file_name(p: Seq<char>) -> Seq<char> {
    split_segments(p).last()
}

/// Lexicographic order on character sequences, by scalar value: a strict
/// total order on distinct sequences, with a proper prefix ordered first.
pub open spec fn lex_lt(a: Seq<char>, b: Seq<char>) -> bool
    decreases a.len(),
{
    if b.len() == 0 {
        false
    } else if a.len() == 0 {
        true
    } else if a[0] != b[0] {
        (a[0] as u32) < (b[0] as u32)
    } else {
        lex_lt(a.drop_first(), b.drop_first())
    }
}

/// Two characters are equal or strictly ordered by their scalar values.
pub proof fn lemma_char_order(c: char, d: char)
    ensures
        c == d || (c as u32) < (d as u32) || (d as u32) < (c as u32),
{
}

pub proof fn lemma_lex_lt_total(a: Seq<char>, b: Seq<char>)
    ensures
        a == b || lex_lt(a, b) || lex_lt(b, a),
        !(lex_lt(a, b) && lex_lt(b, a)),
        lex_lt(a, b) ==> a != b,
    decreases a.len() + b.len(),
{
    if a.len() == 0 && b.len() == 0 {
        assert(a =~= b);
    } else if a.len() > 0 && b.len() > 0 && a[0] == b[0] {
        lemma_lex_lt_total(a.drop_first(), b.drop_first());
        if a.drop_first() == b.drop_first() {
            assert forall|i: int| 0 <= i < a.len() implies a[i] == b[i] by {
                if i > 0 {
                    assert(a.drop_first()[i - 1] == b.drop_first()[i - 1]);
                }
            }
            assert(a =~= b);
        }
        if a == b {
            assert(a.drop_first() =~= b.drop_first());
        }
        if lex_lt(a.drop_first(), b.drop_first()) {
            assert(lex_lt(a, b));
        }
        if lex_lt(b.drop_first(), a.drop_first()) {
            assert(lex_lt(b, a));
        }
    } else if a.len() > 0 && b.len() > 0 && a[0] != b[0] {
        lemma_char_order(a[0], b[0]);
        assert(lex_lt(a, b) == ((a[0] as u32) < (b[0] as u32)));
        assert(lex_lt(b, a) == ((b[0] as u32) < (a[0] as u32)));
    }
}

pub proof fn lemma_lex_lt_trans(a: Seq<char>, b: Seq<char>, c: Seq<char>)
    requires
        lex_lt(a, b),
        lex_lt(b, c),
    ensures
        lex_lt(a, c),
    decreases a.len() + b.len() + c.len(),
{
    if a.len() > 0 && b.len() > 0 && c.len() > 0 && a[0] == b[0] && b[0] == c[0] {
        lemma_lex_lt_trans(a.drop_first(), b.drop_first(), c.drop_first());
    }
}

/// The list is sorted and holds no name twice.
pub open spec fn strictly_sorted(s: Seq<Seq<char>>) -> bool {
    forall|i: int, j: int| 0 <= i < j < s.len() ==> lex_lt(#[trigger] s[i], #[trigger] s[j])
}

/// A sorted name list holds no name twice: the plan's skin, layout and
/// plugin lists contain no duplicates, whatever the archive repeated.
pub proof fn lemma_strictly_sorted_distinct(s: Seq<Seq<char>>)
    requires
        strictly_sorted(s),
    ensures
        distinct_names(s),
{
    assert forall|i: int, j: int| 0 <= i < j < s.len() implies s[i] != s[j] by {
        lemma_lex_lt_total(s[i], s[j]);
    }
}

/// A name put at its place in a sorted list, dropped when already there.
pub open spec fn sorted_insert(acc: Seq<Seq<char>>, n: Seq<char>) -> Seq<Seq<char>>
    decreases acc.len(),
{
    if acc.len() == 0 {
        seq![n]
    } else if n == acc[0] {
        acc
    } else if lex_lt(n, acc[0]) {
        seq![n] + acc
    } else {
        seq![acc[0]] + sorted_insert(acc.drop_first(), n)
    }
}

pub proof fn lemma_sorted_insert_props(acc: Seq<Seq<char>>, n: Seq<char>)
    requires
        strictly_sorted(acc),
    ensures
        strictly_sorted(sorted_insert(acc, n)),
        forall|m: Seq<char>|
            #[trigger] sorted_insert(acc, n).contains(m) <==> (acc.contains(m) || m == n),
    decreases acc.len(),
{
    let r = sorted_insert(acc, n);
    if acc.len() == 0 {
        assert(r[0] == n);
        assert forall|m: Seq<char>| #[trigger] r.contains(m) implies (acc.contains(m) || m
            == n) by {
            let w = choose|w: int| 0 <= w < r.len() && r[w] == m;
        }
    } else if n == acc[0] {
        assert(acc.contains(n)) by {
            assert(acc[0] == n);
        }
    } else if lex_lt(n, acc[0]) {
        assert forall|i: int, j: int| 0 <= i < j < r.len() implies lex_lt(
            #[trigger] r[i],
            #[trigger] r[j],
        ) by {
            if i == 0 {
                assert(r[j] == acc[j - 1]);
                if j > 1 {
                    lemma_lex_lt_trans(n, acc[0], acc[j - 1]);
                }
            } else {
                assert(r[i] == acc[i - 1] && r[j] == acc[j - 1]);
            }
        }
        assert forall|m: Seq<char>| #[trigger] r.contains(m) <==> (acc.contains(m) || m
            == n) by {
            if r.contains(m) {
                let w = choose|w: int| 0 <= w < r.len() && r[w] == m;
                if w > 0 {
                    assert(acc[w - 1] == m);
                }
            }
            if acc.contains(m) {
                let w = choose|w: int| 0 <= w < acc.len() && acc[w] == m;
                assert(r[w + 1] == m);
            }
            if m == n {
                assert(r[0] == m);
            }
        }
    } else {
        lemma_lex_lt_total(n, acc[0]);
        assert(lex_lt(acc[0], n));
        let tail = acc.drop_first();
        assert(strictly_sorted(tail)) by {
            assert(forall|w: int| 0 <= w < tail.len() ==> #[trigger] tail[w] == acc[w + 1]);
        }
        lemma_sorted_insert_props(tail, n);
        let rt = sorted_insert(tail, n);
        assert forall|i: int, j: int| 0 <= i < j < r.len() implies lex_lt(
            #[trigger] r[i],
            #[trigger] r[j],
        ) by {
            if i == 0 {
                assert(r[j] == rt[j - 1]);
                assert(rt.contains(rt[j - 1]));
                if rt[j - 1] == n {
                } else {
                    assert(tail.contains(rt[j - 1]));
                    let w = choose|w: int| 0 <= w < tail.len() && tail[w] == rt[j - 1];
                    assert(tail[w] == acc[w + 1]);
                    assert(lex_lt(acc[0], acc[w + 1]));
                }
            } else {
                assert(r[i] == rt[i - 1] && r[j] == rt[j - 1]);
            }
        }
        assert forall|m: Seq<char>| #[trigger] r.contains(m) <==> (acc.contains(m) || m
            == n) by {
            assert(forall|w: int| 0 <= w < tail.len() ==> #[trigger] tail[w] == acc[w + 1]);
            if r.contains(m) {
                let w = choose|w: int| 0 <= w < r.len() && r[w] == m;
                if w > 0 {
                    assert(rt[w - 1] == m);
                    assert(rt.contains(m));
                } else {
                    assert(acc[0] == m);
                }
            }
            if acc.contains(m) {
                let w = choose|w: int| 0 <= w < acc.len() && acc[w] == m;
                if w == 0 {
                    assert(r[0] == m);
                } else {
                    assert(tail[w - 1] == m);
                    assert(tail.contains(m));
                    assert(rt.contains(m));
                    let w2 = choose|w2: int| 0 <= w2 < rt.len() && rt[w2] == m;
                    assert((seq![acc[0]] + rt)[w2 + 1] == rt[w2]);
                    assert(r.contains(m)) by {
                        assert(r[w2 + 1] == m);
                    }
                }
            }
            if m == n {
                assert(rt.contains(n));
                let w2 = choose|w2: int| 0 <= w2 < rt.len() && rt[w2] == n;
                assert(r == seq![acc[0]] + rt);
                assert((seq![acc[0]] + rt)[w2 + 1] == rt[w2]);
                assert(r.contains(m)) by {
                    assert(r[w2 + 1] == m);
                }
            }
        }
    }
}

/// The skin names of the archive's entries, sorted and duplicate-free.
pub open spec fn skin_names(paths: Seq<Seq<char>>) -> Seq<Seq<char>>
    decreases paths.len(),
{
    if paths.len() == 0 {
        Seq::empty()
    } else {
        let prev = skin_names(paths.drop_last());
        if is_skin_entry(paths.last()) {
            sorted_insert(prev, classified_name(paths.last()))
        } else {
            prev
        }
    }
}

/// The layout names of the archive's entries, sorted and duplicate-free.
pub open spec fn layout_names(paths: Seq<Seq<char>>) -> Seq<Seq<char>>
    decreases paths.len(),
{
    if paths.len() == 0 {
        Seq::empty()
    } else {
        let prev = layout_names(paths.drop_last());
        if is_layout_entry(paths.last()) {
            sorted_insert(prev, classified_name(paths.last()))
        } else {
            prev
        }
    }
}

/// The loadable plugin file names of the archive's entries, sorted and
/// duplicate-free.
pub open spec fn plugin_names(paths: Seq<Seq<char>>) -> Seq<Seq<char>>
    decreases paths.len(),
{
    if paths.len() == 0 {
        Seq::empty()
    } else {
        let prev = plugin_names(paths.drop_last());
        if is_plugin_entry(paths.last()) {
            sorted_insert(prev, entry_file_name(paths.last()))
        } else {
            prev
        }
    }
}

/// The name lists an archive contributes, each duplicate-free.
#[derive(Debug)]
pub struct InstallPlan {
    pub plugins: Vec<String>,
    pub skins: Vec<String>,
    pub layouts: Vec<String>,
}

impl InstallPlan {
    /// Every list is sorted and holds each name exactly once.
    pub open spec fn wf(self) -> bool {
        &&& strictly_sorted(seq_str_views(self.plugins@))
        &&& strictly_sorted(seq_str_views(self.skins@))
        &&& strictly_sorted(seq_str_views(self.layouts@))
    }
}

/// Whether `a` orders strictly before `b`.
pub fn str_lt(a: &str, b: &str) -> (r: bool)
    ensures
        r == lex_lt(a@, b@),
{
    let na = a.unicode_len();
    let nb = b.unicode_len();
    let m = if na <= nb {
        na
    } else {
        nb
    };
    let mut i: usize = 0;
    proof {
        assert(a@.skip(0) =~= a@);
        assert(b@.skip(0) =~= b@);
    }
    while i < m
        invariant
            i <= m,
            na == a@.len(),
            nb == b@.len(),
            m == if na <= nb {
                na
            } else {
                nb
            },
            lex_lt(a@, b@) == lex_lt(a@.skip(i as int), b@.skip(i as int)),
        decreases m - i,
    {
        let ca = a.get_char(i);
        let cb = b.get_char(i);
        proof {
            assert(a@.skip(i as int)[0] == a@[i as int]);
            assert(b@.skip(i as int)[0] == b@[i as int]);
            assert(a@.skip(i as int).drop_first() =~= a@.skip(i + 1));
            assert(b@.skip(i as int).drop_first() =~= b@.skip(i + 1));
        }
        if ca != cb {
            return ca < cb;
        }
        i = i + 1;
    }
    proof {
        if na < nb {
            assert(a@.skip(na as int).len() == 0);
            assert(b@.skip(na as int).len() > 0);
        } else if na > nb {
            assert(b@.skip(nb as int).len() == 0);
        } else {
            assert(a@.skip(na as int).len() == 0);
            assert(b@.skip(na as int).len() == 0);
        }
    }
    na < nb
}

/// Puts a name at its place in the sorted list, unless the list already
/// holds it.
pub fn insert_sorted(v: &mut Vec<String>, x: String)
    requires
        strictly_sorted(seq_str_views(old(v)@)),
    ensures
        seq_str_views(final(v)@) == sorted_insert(seq_str_views(old(v)@), x@),
        strictly_sorted(seq_str_views(final(v)@)),
        forall|n: Seq<char>|
            #[trigger] seq_str_views(final(v)@).contains(n) <==> (seq_str_views(
                old(v)@,
            ).contains(n) || n == x@),
{
    let ghost full = seq_str_views(v@);
    let ghost xv = x@;
    let mut i: usize = 0;
    proof {
        assert(full.skip(0) =~= full);
        assert(full.take(0) + sorted_insert(full.skip(0), xv) =~= sorted_insert(full, xv));
    }
    while i < v.len()
        invariant
            i <= v@.len(),
            v == old(v),
            full == seq_str_views(v@),
            xv == x@,
            strictly_sorted(full),
            sorted_insert(full, xv) == full.take(i as int) + sorted_insert(
                full.skip(i as int),
                xv,
            ),
        decreases v.len() - i,
    {
        let ghost rest = full.skip(i as int);
        proof {
            assert(rest[0] == full[i as int]);
            assert(rest.drop_first() =~= full.skip(i + 1));
        }
        if v[i].eq(&x) {
            proof {
                lemma_sorted_insert_props(full, xv);
                assert(full[i as int] == v@[i as int]@);
                assert(rest[0] == xv);
                assert(sorted_insert(rest, xv) == rest);
                assert(full.take(i as int) + full.skip(i as int) =~= full);
            }
            return;
        }
        if str_lt(x.as_str(), v[i].as_str()) {
            let ghost pre = v@;
            proof {
                assert(full[i as int] == v@[i as int]@);
                assert(!lex_lt(full[i as int], xv)) by {
                    lemma_lex_lt_total(xv, full[i as int]);
                }
                assert(xv != full[i as int]) by {
                    lemma_lex_lt_total(xv, full[i as int]);
                }
            }
            v.insert(i, x);
            proof {
                lemma_sorted_insert_props(full, xv);
                assert(sorted_insert(rest, xv) == seq![xv] + rest);
                let target = full.take(i as int) + (seq![xv] + full.skip(i as int));
                assert(v@ == pre.insert(i as int, v@[i as int]));
                assert forall|w: int|
                    0 <= w < seq_str_views(v@).len() implies seq_str_views(v@)[w]
                    == target[w] by {
                    assert(seq_str_views(v@)[w] == v@[w]@);
                    if w < i {
                        assert(v@[w] == pre[w]);
                        assert(full[w] == pre[w]@);
                    } else if w > i {
                        assert(v@[w] == pre[w - 1]);
                        assert(full[w - 1] == pre[w - 1]@);
                    }
                }
                assert(seq_str_views(v@) =~= target);
            }
            return;
        }
        proof {
            lemma_lex_lt_total(xv, full[i as int]);
            assert(lex_lt(full[i as int], xv));
            assert(sorted_insert(rest, xv) == seq![rest[0]] + sorted_insert(
                rest.drop_first(),
                xv,
            ));
            assert(full.take(i + 1) + sorted_insert(full.skip(i + 1), xv) =~= full.take(
                i as int,
            ) + (seq![rest[0]] + sorted_insert(rest.drop_first(), xv)));
        }
        i = i + 1;
    }
    proof {
        lemma_sorted_insert_props(full, xv);
        assert(full.skip(full.len() as int).len() == 0);
        assert(full.take(full.len() as int) + sorted_insert(full.skip(full.len() as int), xv)
            =~= full.push(xv));
    }
    v.push(x);
    proof {
        assert(seq_str_views(v@) =~= full.push(xv));
    }
}

/// Builds the installation plan from the archive's entry paths: groups skin
/// and layout names by their top-level folder, collects loadable plugin file
/// names, drops duplicates, and reports a missing manifest.
pub fn build_plan(paths: &Vec<String>) -> (r: Result<InstallPlan, InstallError>)
    ensures
        r is Ok <==> exists|i: int|
            0 <= i < paths@.len() && is_manifest_entry(#[trigger] paths@[i]@),
        r is Err ==> r == Err::<InstallPlan, InstallError>(InstallError::ManifestMissing),
        r matches Ok(plan) ==> seq_str_views(plan.skins@) == skin_names(
            seq_str_views(paths@),
        ) && seq_str_views(plan.layouts@) == layout_names(seq_str_views(paths@))
            && seq_str_views(plan.plugins@) == plugin_names(seq_str_views(paths@)),
        r matches Ok(plan) ==> plan.wf() && (forall|n: Seq<char>|
            #[trigger] seq_str_views(plan.skins@).contains(n) <==> exists|i: int|
                0 <= i < paths@.len() && is_skin_entry(#[trigger] paths@[i]@)
                    && classified_name(paths@[i]@) == n) && (forall|n: Seq<char>|
            #[trigger] seq_str_views(plan.layouts@).contains(n) <==> exists|i: int|
                0 <= i < paths@.len() && is_layout_entry(#[trigger] paths@[i]@)
                    && classified_name(paths@[i]@) == n) && (forall|n: Seq<char>|
            #[trigger] seq_str_views(plan.plugins@).contains(n) <==> exists|i: int|
                0 <= i < paths@.len() && is_plugin_entry(#[trigger] paths@[i]@)
                    && entry_file_name(paths@[i]@) == n),
{
    let mut plugins: Vec<String> = Vec::new();
    let mut skins: Vec<String> = Vec::new();
    let mut layouts: Vec<String> = Vec::new();
    let mut found_manifest = false;
    let mut i: usize = 0;
    proof {
        assert(seq_str_views(plugins@) =~= Seq::<Seq<char>>::empty());
        assert(seq_str_views(skins@) =~= Seq::<Seq<char>>::empty());
        assert(seq_str_views(layouts@) =~= Seq::<Seq<char>>::empty());
        assert(seq_str_views(paths@).take(0) =~= Seq::<Seq<char>>::empty());
    }
    while i < paths.len()
        invariant
            i <= paths@.len(),
            strictly_sorted(seq_str_views(plugins@)),
            strictly_sorted(seq_str_views(skins@)),
            strictly_sorted(seq_str_views(layouts@)),
            seq_str_views(skins@) == skin_names(seq_str_views(paths@).take(i as int)),
            seq_str_views(layouts@) == layout_names(seq_str_views(paths@).take(i as int)),
            seq_str_views(plugins@) == plugin_names(seq_str_views(paths@).take(i as int)),
            found_manifest <==> exists|w: int|
                0 <= w < i && is_manifest_entry(#[trigger] paths@[w]@),
            forall|n: Seq<char>|
                #[trigger] seq_str_views(skins@).contains(n) <==> exists|w: int|
                    0 <= w < i && is_skin_entry(#[trigger] paths@[w]@) && classified_name(
                        paths@[w]@,
                    ) == n,
            forall|n: Seq<char>|
                #[trigger] seq_str_views(layouts@).contains(n) <==> exists|w: int|
                    0 <= w < i && is_layout_entry(#[trigger] paths@[w]@) && classified_name(
                        paths@[w]@,
                    ) == n,
            forall|n: Seq<char>|
                #[trigger] seq_str_views(plugins@).contains(n) <==> exists|w: int|
                    0 <= w < i && is_plugin_entry(#[trigger] paths@[w]@) && entry_file_name(
                        paths@[w]@,
                    ) == n,
        decreases paths.len() - i,
    {
        let item = &paths[i];
        proof {
            reveal_strlit("Skins");
            reveal_strlit("Layouts");
            reveal_strlit("Plugins");
            assert("Skins"@ != "Layouts"@) by {
                assert("Skins"@[0] == 'S');
                assert("Layouts"@[0] == 'L');
            }
            assert("Skins"@ != "Plugins"@) by {
                assert("Skins"@[0] == 'S');
                assert("Plugins"@[0] == 'P');
            }
            assert("Layouts"@ != "Plugins"@) by {
                assert("Layouts"@[0] == 'L');
                assert("Plugins"@[0] == 'P');
            }
        }
        let (component, name, extension) = parse_zip_item(item.as_str());
        if str_eq(component.as_str(), "Skins") {
            if !name.as_str().is_empty() {
                insert_sorted(&mut skins, name.clone());
            }
        } else if str_eq(component.as_str(), "Layouts") {
            if !name.as_str().is_empty() {
                insert_sorted(&mut layouts, name.clone());
            }
        } else if str_eq(component.as_str(), "Plugins") {
            if str_eq(name.as_str(), "64bit") && str_eq(extension.as_str(), "dll") {
                let segs = split_path(item.as_str());
                proof {
                    lemma_split_segments_len(item@);
                }
                let file_name = segs[segs.len() - 1].clone();
                proof {
                    assert(file_name@ == entry_file_name(item@));
                }
                insert_sorted(&mut plugins, file_name);
            }
        }
        if str_eq(name.as_str(), "RMSKIN.ini") {
            found_manifest = true;
        }
        proof {
            let pv = seq_str_views(paths@);
            assert(pv.take(i + 1).drop_last() =~= pv.take(i as int));
            assert(pv.take(i + 1).last() == paths@[i as int]@);
        }
        i = i + 1;
    }
    proof {
        assert(seq_str_views(paths@).take(paths@.len() as int) =~= seq_str_views(paths@));
    }
    if !found_manifest {
        return Err(InstallError::ManifestMissing);
    }
    Ok(InstallPlan { plugins, skins, layouts })
}

/// Whether two string slices hold the same characters.
pub fn str_eq(a: &str, b: &str) -> (r: bool)
    ensures
        r == (a@ == b@),
{
    let n = a.unicode_len();
    if n != b.unicode_len() {
        return false;
    }
    let mut i: usize = 0;
    while i < n
        invariant
            i <= n,
            n == a@.len(),
            a@.len() == b@.len(),
            forall|j: int| 0 <= j < i ==> a@[j] == b@[j],
        decreases n - i,
    {
        if a.get_char(i) != b.get_char(i) {
            return false;
        }
        i = i + 1;
    }
    proof {
        assert(a@ =~= b@);
    }
    true
}

} // verus!
