//! Archive entry classifier: maps an archive-relative path to a
//! (component, name, extension) triple, from the path's syntax alone.

use vstd::prelude::*;
use vstd::string::StrSliceExecFns;

verus! {

/// Separator between the segments of an archive-relative path.
pub const SEP: char = '/';

/// The segments of `s`, split on `SEP`; an empty path has one empty segment,
/// and a trailing separator yields a final empty segment.
pub open spec fn split_segments(s: Seq<char>) -> Seq<Seq<char>>
    decreases s.len(),
{
    if s.len() == 0 {
        seq![Seq::<char>::empty()]
    } else if s.last() == SEP {
        split_segments(s.drop_last()).push(Seq::<char>::empty())
    } else {
        let prev = split_segments(s.drop_last());
        prev.update(prev.len() - 1, prev.last().push(s.last()))
    }
}

pub proof fn lemma_split_segments_len(s: Seq<char>)
    ensures
        split_segments(s).len() >= 1,
    decreases s.len(),
{
    if s.len() > 0 {
        lemma_split_segments_len(s.drop_last());
    }
}

/// Index of the last `'.'` in `s`, or `-1` when there is none.
pub open spec fn last_dot_index(s: Seq<char>) -> int
    decreases s.len(),
{
    if s.len() == 0 {
        -1
    } else if s.last() == '.' {
        s.len() - 1
    } else {
        last_dot_index(s.drop_last())
    }
}

pub proof fn lemma_last_dot_index_bounds(s: Seq<char>)
    ensures
        -1 <= last_dot_index(s) < s.len(),
    decreases s.len(),
{
    if s.len() > 0 && s.last() != '.' {
        lemma_last_dot_index_bounds(s.drop_last());
    }
}

/// The extension of a file name: the characters after its last `'.'`, empty
/// when there is no `'.'` or when the only `'.'` starts the name.
pub open spec fn extension_spec(s: Seq<char>) -> Seq<char> {
    let i = last_dot_index(s);
    if i <= 0 {
        Seq::<char>::empty()
    } else {
        s.skip(i + 1)
    }
}

/// Component of a classified entry: the first segment when the path has at
/// least three segments, empty otherwise.
pub open spec fn classified_component(p: Seq<char>) -> Seq<char> {
    let segs = split_segments(p);
    if segs.len() > 2 {
        segs[0]
    } else {
        Seq::<char>::empty()
    }
}

/// Name of a classified entry: the second segment when the path has at least
/// three segments, the first segment otherwise.
pub open spec fn classified_name(p: Seq<char>) -> Seq<char> {
    let segs = split_segments(p);
    if segs.len() > 2 {
        segs[1]
    } else {
        segs[0]
    }
}

/// Extension of a classified entry: the extension of the last segment when the
/// path has at least two segments, empty otherwise.
pub open spec fn classified_extension(p: Seq<char>) -> Seq<char> {
    let segs = split_segments(p);
    if segs.len() >= 2 {
        extension_spec(segs.last())
    } else {
        Seq::<char>::empty()
    }
}

/// The character views of a sequence of strings.
pub open spec fn seq_str_views(v: Seq<String>) -> Seq<Seq<char>> {
    v.map_values(|x: String| x@)
}

pub proof fn lemma_seq_str_views_push(v: Seq<String>, x: String)
    ensures
        seq_str_views(v.push(x)) == seq_str_views(v).push(x@),
{
    assert(seq_str_views(v.push(x)) =~= seq_str_views(v).push(x@));
}

/// Splits a path into its `SEP`-separated segments.
pub fn split_path(s: &str) -> (segs: Vec<String>)
    ensures
        seq_str_views(segs@) == split_segments(s@),
        segs@.len() == split_segments(s@).len(),
{
    let n = s.unicode_len();
    let mut segs: Vec<String> = Vec::new();
    let mut start: usize = 0;
    let mut i: usize = 0;
    proof {
        assert(s@.take(0) =~= Seq::<char>::empty());
        assert(seq_str_views(segs@).push(s@.subrange(0, 0)) =~= seq![Seq::<char>::empty()]);
    }
    while i < n
        invariant
            start <= i <= n,
            n == s@.len(),
            seq_str_views(segs@).push(s@.subrange(start as int, i as int)) == split_segments(
                s@.take(i as int),
            ),
        decreases n - i,
    {
        let ghost pre_views = seq_str_views(segs@);
        let c = s.get_char(i);
        proof {
            assert(s@.take(i + 1).last() == s@[i as int]);
            assert(s@.take(i + 1).drop_last() =~= s@.take(i as int));
        }
        if c == SEP {
            let ghost old_start = start as int;
            let seg = s.substring_char(start, i).to_owned();
            proof {
                lemma_seq_str_views_push(segs@, seg);
            }
            segs.push(seg);
            start = i + 1;
            proof {
                assert(s@.subrange(i + 1, i + 1) =~= Seq::<char>::empty());
                assert(seq_str_views(segs@).push(s@.subrange(start as int, i + 1))
                    =~= pre_views.push(s@.subrange(old_start, i as int)).push(
                    Seq::<char>::empty(),
                ));
            }
        } else {
            proof {
                let prev = split_segments(s@.take(i as int));
                assert(prev == pre_views.push(s@.subrange(start as int, i as int)));
                assert(prev.last() == s@.subrange(start as int, i as int));
                assert(s@.subrange(start as int, i as int).push(s@[i as int]) =~= s@.subrange(
                    start as int,
                    i + 1,
                ));
                assert(prev.update(prev.len() - 1, s@.subrange(start as int, i + 1))
                    =~= pre_views.push(s@.subrange(start as int, i + 1)));
            }
        }
        i = i + 1;
    }
    let seg = s.substring_char(start, n).to_owned();
    proof {
        lemma_seq_str_views_push(segs@, seg);
        assert(s@.take(n as int) =~= s@);
    }
    segs.push(seg);
    segs
}

/// Extracts the extension of a single path segment.
pub fn extension_of(seg: &str) -> (ext: String)
    ensures
        ext@ == extension_spec(seg@),
{
    let n = seg.unicode_len();
    let mut j: usize = n;
    proof {
        assert(seg@.take(n as int) =~= seg@);
    }
    while j > 0
        invariant
            j <= n,
            n == seg@.len(),
            last_dot_index(seg@) == last_dot_index(seg@.take(j as int)),
        decreases j,
    {
        let c = seg.get_char(j - 1);
        proof {
            assert(seg@.take(j as int).last() == seg@[j - 1]);
            assert(seg@.take(j as int).drop_last() =~= seg@.take(j - 1));
        }
        if c == '.' {
            proof {
                assert(last_dot_index(seg@) == j - 1);
            }
            if j - 1 > 0 {
                let ext = seg.substring_char(j, n).to_owned();
                proof {
                    assert(seg@.subrange(j as int, n as int) =~= seg@.skip(j as int));
                }
                return ext;
            } else {
                return String::new();
            }
        }
        j = j - 1;
    }
    proof {
        assert(seg@.take(0) =~= Seq::<char>::empty());
    }
    String::new()
}

/// Classifies one archive entry path into (component, name, extension).
///
/// A path of three or more segments is grouped under its first segment as the
/// component with the second segment as the name; shorter paths have no
/// component and take the first segment as the name.
pub fn parse_zip_item(item: &str) -> (r: (String, String, String))
    ensures
        r.0@ == classified_component(item@),
        r.1@ == classified_name(item@),
        r.2@ == classified_extension(item@),
{
    let segs = split_path(item);
    proof {
        lemma_split_segments_len(item@);
    }
    if segs.len() > 2 {
        let ext = extension_of(segs[segs.len() - 1].as_str());
        (segs[0].clone(), segs[1].clone(), ext)
    } else if segs.len() == 2 {
        let ext = extension_of(segs[1].as_str());
        (String::new(), segs[0].clone(), ext)
    } else {
        (String::new(), segs[0].clone(), String::new())
    }
}

/// For a path of three or more segments the classifier takes the component
/// from the first segment and the name from the second, whatever the
/// extension turns out to be.
pub proof fn lemma_classify_deep_path(p: Seq<char>)
    requires
        split_segments(p).len() >= 3,
    ensures
        classified_component(p) == split_segments(p)[0],
        classified_name(p) == split_segments(p)[1],
{
}

/// For a single-segment path the name is the whole segment while the
/// component and the extension are empty.
pub proof fn lemma_classify_flat_path(p: Seq<char>)
    requires
        split_segments(p).len() == 1,
    ensures
        classified_component(p) == Seq::<char>::empty(),
        classified_name(p) == split_segments(p)[0],
        classified_extension(p) == Seq::<char>::empty(),
{
}

} // verus!
