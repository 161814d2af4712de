//! Variable preservation: merging the key-value pairs of an existing skin
//! configuration into the freshly staged copy, so user-set values survive
//! being overwritten by the new file's defaults.

use vstd::prelude::*;

verus! {

/// The pair-of-views of a list of key-value unit vectors.
pub open spec fn pair_views(v: Seq<(Vec<u16>, Vec<u16>)>) -> Seq<(Seq<u16>, Seq<u16>)> {
    v.map_values(|p: (Vec<u16>, Vec<u16>)| (p.0@, p.1@))
}

/// Keys and values zipped into pairs; unmatched trailing entries are dropped.
pub open spec fn zip_pairs(ks: Seq<Seq<u16>>, vs: Seq<Seq<u16>>) -> Seq<(Seq<u16>, Seq<u16>)> {
    Seq::new(if ks.len() <= vs.len() { ks.len() } else { vs.len() }, |i: int| (ks[i], vs[i]))
}

/// Index of the first pair whose key is `k`, or `-1` when there is none.
pub open spec fn find_key(ps: Seq<(Seq<u16>, Seq<u16>)>, k: Seq<u16>) -> int
    decreases ps.len(),
{
    if ps.len() == 0 {
        -1
    } else if ps[0].0 == k {
        0
    } else {
        let r = find_key(ps.drop_first(), k);
        if r < 0 {
            -1
        } else {
            1 + r
        }
    }
}

/// Whether some pair carries key `k`.
pub open spec fn has_key(ps: Seq<(Seq<u16>, Seq<u16>)>, k: Seq<u16>) -> bool {
    exists|j: int| 0 <= j < ps.len() && ps[j].0 == k
}

/// The value of the first pair carrying key `k`.
pub open spec fn first_value(ps: Seq<(Seq<u16>, Seq<u16>)>, k: Seq<u16>) -> Seq<u16> {
    ps[find_key(ps, k)].1
}

/// The value of the last pair carrying key `k`.
pub open spec fn last_value(ps: Seq<(Seq<u16>, Seq<u16>)>, k: Seq<u16>) -> Seq<u16>
    decreases ps.len(),
{
    if ps.len() == 0 {
        Seq::empty()
    } else if has_key(ps.drop_first(), k) {
        last_value(ps.drop_first(), k)
    } else if ps[0].0 == k {
        ps[0].1
    } else {
        Seq::empty()
    }
}

pub proof fn lemma_find_key_props(ps: Seq<(Seq<u16>, Seq<u16>)>, k: Seq<u16>)
    ensures
        find_key(ps, k) == -1 <==> !has_key(ps, k),
        has_key(ps, k) ==> 0 <= find_key(ps, k) < ps.len() && ps[find_key(ps, k)].0 == k && (
        forall|j: int| 0 <= j < find_key(ps, k) ==> ps[j].0 != k),
    decreases ps.len(),
{
    if ps.len() > 0 && ps[0].0 != k {
        lemma_find_key_props(ps.drop_first(), k);
        if has_key(ps, k) {
            let w = choose|j: int| 0 <= j < ps.len() && ps[j].0 == k;
            assert(ps.drop_first()[w - 1].0 == k);
            assert forall|j: int| 0 <= j < find_key(ps, k) implies ps[j].0 != k by {
                if j >= 1 {
                    assert(ps.drop_first()[j - 1].0 != k);
                    assert(ps.drop_first()[j - 1] == ps[j]);
                }
            }
        }
    }
}

/// Setting key `k` to value `v`: the first pair carrying `k` is replaced in
/// place, or a new pair is appended when the key is absent.
pub open spec fn upsert(ps: Seq<(Seq<u16>, Seq<u16>)>, k: Seq<u16>, v: Seq<u16>) -> Seq<
    (Seq<u16>, Seq<u16>),
> {
    let i = find_key(ps, k);
    if i >= 0 {
        ps.update(i, (k, v))
    } else {
        ps.push((k, v))
    }
}

/// `find_key` looks only at keys, so it agrees on any two lists whose keys
/// agree pointwise.
pub proof fn lemma_find_key_same_keys(
    ps1: Seq<(Seq<u16>, Seq<u16>)>,
    ps2: Seq<(Seq<u16>, Seq<u16>)>,
    k: Seq<u16>,
)
    requires
        ps1.len() == ps2.len(),
        forall|j: int| 0 <= j < ps1.len() ==> (#[trigger] ps1[j]).0 == ps2[j].0,
    ensures
        find_key(ps1, k) == find_key(ps2, k),
    decreases ps1.len(),
{
    if ps1.len() > 0 {
        assert(forall|j: int|
            0 <= j < ps1.len() - 1 ==> (#[trigger] ps1.drop_first()[j]).0
                == ps2.drop_first()[j].0);
        lemma_find_key_same_keys(ps1.drop_first(), ps2.drop_first(), k);
    }
}

pub proof fn lemma_upsert_same(ps: Seq<(Seq<u16>, Seq<u16>)>, k: Seq<u16>, v: Seq<u16>)
    ensures
        has_key(upsert(ps, k, v), k),
        first_value(upsert(ps, k, v), k) == v,
    decreases ps.len(),
{
    lemma_find_key_props(ps, k);
    let i = find_key(ps, k);
    let r = upsert(ps, k, v);
    if i >= 0 {
        assert(r[i].0 == k);
        lemma_find_key_same_keys(ps, r, k);
        lemma_find_key_props(r, k);
    } else {
        assert(r[ps.len() as int].0 == k);
        lemma_find_key_props(r, k);
        assert(forall|j: int| 0 <= j < ps.len() ==> #[trigger] r[j] == ps[j]);
        assert(find_key(r, k) == ps.len()) by {
            if find_key(r, k) < ps.len() {
                assert(ps[find_key(r, k)] == r[find_key(r, k)]);
            }
        }
    }
}

pub proof fn lemma_upsert_other(
    ps: Seq<(Seq<u16>, Seq<u16>)>,
    k: Seq<u16>,
    v: Seq<u16>,
    k2: Seq<u16>,
)
    requires
        k2 != k,
    ensures
        find_key(upsert(ps, k, v), k2) == find_key(ps, k2),
        has_key(upsert(ps, k, v), k2) == has_key(ps, k2),
        has_key(ps, k2) ==> first_value(upsert(ps, k, v), k2) == first_value(ps, k2),
{
    lemma_find_key_props(ps, k);
    let i = find_key(ps, k);
    let r = upsert(ps, k, v);
    if i >= 0 {
        lemma_find_key_same_keys(ps, r, k2);
    } else {
        lemma_find_key_props(ps, k2);
        lemma_find_key_props(r, k2);
        assert(forall|j: int| 0 <= j < ps.len() ==> #[trigger] r[j] == ps[j]);
        if has_key(ps, k2) {
            let w = find_key(ps, k2);
            assert(r[w].0 == k2);
            assert(has_key(r, k2));
            assert(find_key(r, k2) == w) by {
                lemma_find_key_props(r, k2);
                if find_key(r, k2) < w {
                    assert(ps[find_key(r, k2)] == r[find_key(r, k2)]);
                }
                if find_key(r, k2) > w {
                    assert(r[w].0 == k2);
                }
            }
        } else {
            if has_key(r, k2) {
                let w = choose|j: int| 0 <= j < r.len() && r[j].0 == k2;
                assert(w == ps.len() || ps[w].0 == k2);
                assert(false);
            }
        }
    }
    lemma_find_key_props(ps, k2);
    lemma_find_key_props(r, k2);
}

/// The staged section after every old pair has been written into it, in order.
pub open spec fn preserve_spec(
    new: Seq<(Seq<u16>, Seq<u16>)>,
    old_pairs: Seq<(Seq<u16>, Seq<u16>)>,
) -> Seq<(Seq<u16>, Seq<u16>)>
    decreases old_pairs.len(),
{
    if old_pairs.len() == 0 {
        new
    } else {
        preserve_spec(upsert(new, old_pairs[0].0, old_pairs[0].1), old_pairs.drop_first())
    }
}

/// Variable preservation round trip: for every key the old section had set,
/// the merged section reads back the old value (its last one, when the old
/// section set the key twice); every key the old section did not set keeps
/// exactly the first value the staged section gave it.
pub proof fn lemma_preserve_round_trip(
    new: Seq<(Seq<u16>, Seq<u16>)>,
    old_pairs: Seq<(Seq<u16>, Seq<u16>)>,
)
    ensures
        forall|k: Seq<u16>|
            has_key(old_pairs, k) ==> has_key(preserve_spec(new, old_pairs), k) && first_value(
                preserve_spec(new, old_pairs),
                k,
            ) == last_value(old_pairs, k),
        forall|k: Seq<u16>|
            !has_key(old_pairs, k) ==> has_key(preserve_spec(new, old_pairs), k) == has_key(new, k)
                && (has_key(new, k) ==> first_value(preserve_spec(new, old_pairs), k)
                == first_value(new, k)),
    decreases old_pairs.len(),
{
    if old_pairs.len() > 0 {
        let k0 = old_pairs[0].0;
        let v0 = old_pairs[0].1;
        let up = upsert(new, k0, v0);
        let tail = old_pairs.drop_first();
        lemma_preserve_round_trip(up, tail);
        assert(forall|j: int|
            0 <= j < tail.len() ==> #[trigger] tail[j] == old_pairs[j + 1]);
        assert forall|k: Seq<u16>| has_key(old_pairs, k) implies has_key(
            preserve_spec(new, old_pairs),
            k,
        ) && first_value(preserve_spec(new, old_pairs), k) == last_value(old_pairs, k) by {
            if has_key(tail, k) {
                assert(last_value(old_pairs, k) == last_value(tail, k));
            } else {
                let j = choose|j: int| 0 <= j < old_pairs.len() && old_pairs[j].0 == k;
                assert(j != 0 ==> tail[j - 1].0 == k);
                assert(k == k0);
                lemma_upsert_same(new, k0, v0);
                assert(first_value(preserve_spec(new, old_pairs), k) == v0);
                assert(last_value(old_pairs, k0) == v0) by {
                    assert(!has_key(tail, k0));
                }
            }
        }
        assert forall|k: Seq<u16>| !has_key(old_pairs, k) implies has_key(
            preserve_spec(new, old_pairs),
            k,
        ) == has_key(new, k) && (has_key(new, k) ==> first_value(preserve_spec(new, old_pairs), k)
            == first_value(new, k)) by {
            assert(!has_key(tail, k)) by {
                if has_key(tail, k) {
                    let j = choose|j: int| 0 <= j < tail.len() && tail[j].0 == k;
                    assert(old_pairs[j + 1].0 == k);
                }
            }
            assert(k != k0) by {
                assert(old_pairs[0].0 == k0);
            }
            lemma_upsert_other(new, k0, v0, k);
        }
    }
}

/// Copies a vector of code units.
pub fn clone_units(v: &Vec<u16>) -> (r: Vec<u16>)
    ensures
        r@ == v@,
{
    let r = v.clone();
    proof {
        assert(r@ =~= v@);
    }
    r
}

/// Whether two unit vectors hold the same units.
pub fn units_eq(a: &Vec<u16>, b: &Vec<u16>) -> (r: bool)
    ensures
        r == (a@ == b@),
{
    if a.len() != b.len() {
        return false;
    }
    let mut i: usize = 0;
    while i < a.len()
        invariant
            i <= a.len(),
            a@.len() == b@.len(),
            forall|j: int| 0 <= j < i ==> a@[j] == b@[j],
        decreases a.len() - i,
    {
        if a[i] != b[i] {
            return false;
        }
        i = i + 1;
    }
    proof {
        assert(a@ =~= b@);
    }
    true
}

/// Zips scanned keys and values into pairs, dropping unmatched trailing
/// entries.
pub fn pair_section(keys: &Vec<Vec<u16>>, values: &Vec<Vec<u16>>) -> (pairs: Vec<
    (Vec<u16>, Vec<u16>),
>)
    ensures
        pair_views(pairs@) == zip_pairs(
            crate::winini::seq_unit_views(keys@),
            crate::winini::seq_unit_views(values@),
        ),
{
    let n = if keys.len() <= values.len() {
        keys.len()
    } else {
        values.len()
    };
    let mut pairs: Vec<(Vec<u16>, Vec<u16>)> = Vec::new();
    let mut i: usize = 0;
    while i < n
        invariant
            i <= n,
            n <= keys@.len(),
            n <= values@.len(),
            pairs@.len() == i,
            forall|j: int|
                0 <= j < i ==> (#[trigger] pairs@[j]).0@ == keys@[j]@ && pairs@[j].1@
                    == values@[j]@,
        decreases n - i,
    {
        let k = clone_units(&keys[i]);
        let v = clone_units(&values[i]);
        pairs.push((k, v));
        i = i + 1;
    }
    proof {
        assert(pair_views(pairs@) =~= zip_pairs(
            crate::winini::seq_unit_views(keys@),
            crate::winini::seq_unit_views(values@),
        ));
    }
    pairs
}

/// Finds the first pair carrying key `k`.
pub fn find_pair(ps: &Vec<(Vec<u16>, Vec<u16>)>, k: &Vec<u16>) -> (r: Option<usize>)
    ensures
        match r {
            Some(i) => i < ps@.len() && find_key(pair_views(ps@), k@) == i,
            None => find_key(pair_views(ps@), k@) == -1,
        },
{
    let mut i: usize = 0;
    while i < ps.len()
        invariant
            i <= ps@.len(),
            forall|j: int| 0 <= j < i ==> (#[trigger] pair_views(ps@)[j]).0 != k@,
        decreases ps.len() - i,
    {
        if units_eq(&ps[i].0, k) {
            proof {
                lemma_find_key_props(pair_views(ps@), k@);
                assert(pair_views(ps@)[i as int].0 == k@);
                if find_key(pair_views(ps@), k@) > i {
                    assert(pair_views(ps@)[i as int].0 != k@);
                }
            }
            return Some(i);
        }
        i = i + 1;
    }
    proof {
        lemma_find_key_props(pair_views(ps@), k@);
        if has_key(pair_views(ps@), k@) {
            let w = choose|j: int|
                0 <= j < pair_views(ps@).len() && pair_views(ps@)[j].0 == k@;
            assert(pair_views(ps@)[w].0 != k@);
        }
    }
    None
}

/// Writes key `k` with value `v` into the section, replacing the first pair
/// carrying `k` or appending a new pair.
pub fn upsert_pair(ps: &mut Vec<(Vec<u16>, Vec<u16>)>, k: &Vec<u16>, v: &Vec<u16>)
    ensures
        pair_views(final(ps)@) == upsert(pair_views(old(ps)@), k@, v@),
{
    let kc = clone_units(k);
    let vc = clone_units(v);
    match find_pair(ps, k) {
        Some(i) => {
            ps.remove(i);
            ps.insert(i, (kc, vc));
            proof {
                lemma_find_key_props(pair_views(old(ps)@), k@);
                assert(pair_views(ps@) =~= pair_views(old(ps)@).update(i as int, (k@, v@)));
            }
        },
        None => {
            ps.push((kc, vc));
            proof {
                assert(pair_views(ps@) =~= pair_views(old(ps)@).push((k@, v@)));
            }
        },
    }
}

/// Merges the old section's pairs into the staged section, writing each old
/// pair in order; old values win for shared keys, keys only in the staged
/// section are untouched.
pub fn preserve_variables(
    new: Vec<(Vec<u16>, Vec<u16>)>,
    old_pairs: &Vec<(Vec<u16>, Vec<u16>)>,
) -> (merged: Vec<(Vec<u16>, Vec<u16>)>)
    ensures
        pair_views(merged@) == preserve_spec(pair_views(new@), pair_views(old_pairs@)),
{
    let ghost new0 = pair_views(new@);
    let mut acc = new;
    let mut i: usize = 0;
    proof {
        assert(pair_views(old_pairs@).skip(0) =~= pair_views(old_pairs@));
    }
    while i < old_pairs.len()
        invariant
            i <= old_pairs@.len(),
            preserve_spec(pair_views(acc@), pair_views(old_pairs@).skip(i as int))
                == preserve_spec(new0, pair_views(old_pairs@)),
        decreases old_pairs.len() - i,
    {
        let ghost pre = pair_views(acc@);
        let ghost rest = pair_views(old_pairs@).skip(i as int);
        upsert_pair(&mut acc, &old_pairs[i].0, &old_pairs[i].1);
        proof {
            assert(rest[0] == pair_views(old_pairs@)[i as int]);
            assert(rest.drop_first() =~= pair_views(old_pairs@).skip(i + 1));
            assert(preserve_spec(pre, rest) == preserve_spec(
                upsert(pre, rest[0].0, rest[0].1),
                rest.drop_first(),
            ));
        }
        i = i + 1;
    }
    proof {
        assert(pair_views(old_pairs@).skip(old_pairs@.len() as int) =~= Seq::empty());
    }
    acc
}

} // verus!
