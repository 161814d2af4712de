//! A model of the slice of the file system an installation run touches:
//! a finite map from segment paths to directory or file nodes, held as an
//! association list.  The merge-copy primitive — copy a directory tree into a
//! destination, creating missing directories and overwriting existing files,
//! deleting nothing — is defined here with an exact contract; every
//! installation action inherits its semantics from it.

use vstd::prelude::*;
use crate::classify::seq_str_views;
use crate::errors::InstallError;

verus! {

/// One node of the tree: a directory or a regular file with its contents.
pub enum FsNode {
    Dir,
    File(Vec<u8>),
}

/// The mathematical value of a node.
pub enum NodeView {
    Dir,
    File(Seq<u8>),
}

pub open spec fn node_view(n: FsNode) -> NodeView {
    match n {
        FsNode::Dir => NodeView::Dir,
        FsNode::File(c) => NodeView::File(c@),
    }
}

/// The map described by an association list of (path, node) entries, later
/// entries winning.
pub open spec fn entries_map(s: Seq<(Vec<String>, FsNode)>) -> Map<Seq<Seq<char>>, NodeView>
    decreases s.len(),
{
    if s.len() == 0 {
        Map::empty()
    } else {
        entries_map(s.drop_last()).insert(seq_str_views(s.last().0@), node_view(s.last().1))
    }
}

/// The key of the entry at index `i`.
pub open spec fn key_at(s: Seq<(Vec<String>, FsNode)>, i: int) -> Seq<Seq<char>> {
    seq_str_views(s[i].0@)
}

/// No two entries share a path.
pub open spec fn distinct_keys(s: Seq<(Vec<String>, FsNode)>) -> bool {
    forall|i: int, j: int| 0 <= i < j < s.len() ==> key_at(s, i) != key_at(s, j)
}

pub proof fn lemma_distinct_take(s: Seq<(Vec<String>, FsNode)>, n: int)
    requires
        distinct_keys(s),
        0 <= n <= s.len(),
    ensures
        distinct_keys(s.take(n)),
{
    assert forall|i: int, j: int| 0 <= i < j < s.take(n).len() implies key_at(s.take(n), i)
        != key_at(s.take(n), j) by {
        assert(key_at(s.take(n), i) == key_at(s, i));
        assert(key_at(s.take(n), j) == key_at(s, j));
    }
}

pub proof fn lemma_entries_map_props(s: Seq<(Vec<String>, FsNode)>)
    requires
        distinct_keys(s),
    ensures
        forall|i: int|
            0 <= i < s.len() ==> entries_map(s).contains_key(#[trigger] key_at(s, i))
                && entries_map(s)[key_at(s, i)] == node_view(s[i].1),
        forall|k: Seq<Seq<char>>|
            entries_map(s).contains_key(k) ==> exists|i: int|
                0 <= i < s.len() && key_at(s, i) == k,
    decreases s.len(),
{
    if s.len() > 0 {
        let t = s.drop_last();
        assert(distinct_keys(t)) by {
            assert(forall|i: int| 0 <= i < t.len() ==> key_at(t, i) == key_at(s, i));
        }
        lemma_entries_map_props(t);
        assert(forall|i: int| 0 <= i < t.len() ==> key_at(t, i) == key_at(s, i));
        assert(forall|i: int|
            0 <= i < s.len() - 1 ==> #[trigger] key_at(s, i) != key_at(s, s.len() - 1));
        assert forall|k: Seq<Seq<char>>| entries_map(s).contains_key(k) implies exists|i: int|
            0 <= i < s.len() && key_at(s, i) == k by {
            if k != key_at(s, s.len() - 1) {
                assert(entries_map(t).contains_key(k));
                let i = choose|i: int| 0 <= i < t.len() && key_at(t, i) == k;
                assert(key_at(s, i) == k);
            } else {
                assert(key_at(s, s.len() - 1) == k);
            }
        }
    }
}

pub proof fn lemma_entries_map_update(s: Seq<(Vec<String>, FsNode)>, i: int, e: (Vec<String>, FsNode))
    requires
        distinct_keys(s),
        0 <= i < s.len(),
        seq_str_views(e.0@) == key_at(s, i),
    ensures
        entries_map(s.update(i, e)) == entries_map(s).insert(
            seq_str_views(e.0@),
            node_view(e.1),
        ),
    decreases s.len(),
{
    let u = s.update(i, e);
    let k = seq_str_views(e.0@);
    if i == s.len() - 1 {
        assert(u.drop_last() =~= s.drop_last());
        assert(u.last() == e);
        assert(entries_map(u) == entries_map(s.drop_last()).insert(k, node_view(e.1)));
        assert(entries_map(s.drop_last()).insert(k, node_view(s[i].1)).insert(k, node_view(e.1))
            =~= entries_map(s.drop_last()).insert(k, node_view(e.1)));
    } else {
        let t = s.drop_last();
        assert(distinct_keys(t)) by {
            assert(forall|j: int| 0 <= j < t.len() ==> key_at(t, j) == key_at(s, j));
        }
        assert(key_at(t, i) == key_at(s, i));
        lemma_entries_map_update(t, i, e);
        assert(u.drop_last() =~= t.update(i, e));
        assert(u.last() == s.last());
        let klast = key_at(s, s.len() - 1);
        assert(k != klast);
        assert(entries_map(t).insert(k, node_view(e.1)).insert(klast, node_view(s.last().1))
            =~= entries_map(t).insert(klast, node_view(s.last().1)).insert(k, node_view(e.1)));
    }
}

/// A path is a directory in the map.
pub open spec fn is_dir_spec(m: Map<Seq<Seq<char>>, NodeView>, p: Seq<Seq<char>>) -> bool {
    m.contains_key(p) && m[p] is Dir
}

/// A path is a regular file in the map.
pub open spec fn is_file_spec(m: Map<Seq<Seq<char>>, NodeView>, p: Seq<Seq<char>>) -> bool {
    m.contains_key(p) && m[p] is File
}

/// `k` lies at or under `p`.
pub open spec fn is_under(k: Seq<Seq<char>>, p: Seq<Seq<char>>) -> bool {
    p.len() <= k.len() && k.take(p.len() as int) == p
}

/// All paths at or under `p`.
pub open spec fn keys_under(p: Seq<Seq<char>>) -> Set<Seq<Seq<char>>> {
    Set::new(|k: Seq<Seq<char>>| is_under(k, p))
}

/// The directory entries a creation of `p` establishes: every non-empty
/// prefix of `p`, as a directory.
pub open spec fn dirs_to(p: Seq<Seq<char>>) -> Map<Seq<Seq<char>>, NodeView> {
    Map::new(
        |k: Seq<Seq<char>>| 1 <= k.len() <= p.len() && k == p.take(k.len() as int),
        |k: Seq<Seq<char>>| NodeView::Dir,
    )
}

/// No prefix of `p` (including `p` itself) is a regular file, so directories
/// up to `p` can be created.
pub open spec fn dirs_ok(m: Map<Seq<Seq<char>>, NodeView>, p: Seq<Seq<char>>) -> bool {
    forall|i: int| 1 <= i <= p.len() ==> !is_file_spec(m, #[trigger] p.take(i))
}

/// The tree found under `src`, keyed by the path relative to `src`.
pub open spec fn sub_map(m: Map<Seq<Seq<char>>, NodeView>, src: Seq<Seq<char>>) -> Map<
    Seq<Seq<char>>,
    NodeView,
> {
    Map::new(
        |rel: Seq<Seq<char>>| rel.len() >= 1 && m.contains_key(src + rel),
        |rel: Seq<Seq<char>>| m[src + rel],
    )
}

/// The entries a merge-copy writes: the tree under `src`, re-rooted at
/// `dest`.
pub open spec fn remap_under(
    m: Map<Seq<Seq<char>>, NodeView>,
    src: Seq<Seq<char>>,
    dest: Seq<Seq<char>>,
) -> Map<Seq<Seq<char>>, NodeView> {
    Map::new(
        |k: Seq<Seq<char>>|
            k.len() > dest.len() && k.take(dest.len() as int) == dest && m.contains_key(
                src + k.skip(dest.len() as int),
            ),
        |k: Seq<Seq<char>>| m[src + k.skip(dest.len() as int)],
    )
}

/// The tree after a merge-copy of `src` into `dest`: the old tree, the
/// directories up to `dest`, and the re-rooted copy of everything under
/// `src`, files overwritten and nothing deleted.
pub open spec fn merge_result(
    m: Map<Seq<Seq<char>>, NodeView>,
    src: Seq<Seq<char>>,
    dest: Seq<Seq<char>>,
) -> Map<Seq<Seq<char>>, NodeView> {
    m.union_prefer_right(dirs_to(dest)).union_prefer_right(remap_under(m, src, dest))
}

/// When a merge-copy succeeds: the source is a directory, nothing on the way
/// to the destination is a regular file, and no copied node changes kind over
/// what the destination already holds.
pub open spec fn merge_ok(
    m: Map<Seq<Seq<char>>, NodeView>,
    src: Seq<Seq<char>>,
    dest: Seq<Seq<char>>,
) -> bool {
    &&& is_dir_spec(m, src)
    &&& dirs_ok(m, dest)
    &&& forall|rel: Seq<Seq<char>>|
        rel.len() >= 1 && m.contains_key(#[trigger] (src + rel)) && m.contains_key(dest + rel)
            ==> ((m[src + rel] is Dir) <==> (m[dest + rel] is Dir))
}

/// The file-system model: a finite map from segment paths to nodes.
pub struct FsTree {
    pub entries: Vec<(Vec<String>, FsNode)>,
}

impl View for FsTree {
    type V = Map<Seq<Seq<char>>, NodeView>;

    open spec fn view(&self) -> Map<Seq<Seq<char>>, NodeView> {
        entries_map(self.entries@)
    }
}

impl FsTree {
    /// The association list holds each path at most once.
    pub open spec fn wf(self) -> bool {
        distinct_keys(self.entries@)
    }

    /// An empty tree.
    pub fn new() -> (t: FsTree)
        ensures
            t.wf(),
            t@ == Map::<Seq<Seq<char>>, NodeView>::empty(),
    {
        FsTree { entries: Vec::new() }
    }

    /// Index of the entry holding `p`, if any.
    fn find_entry(&self, p: &Vec<String>) -> (r: Option<usize>)
        requires
            self.wf(),
        ensures
            match r {
                Some(i) => i < self.entries@.len() && key_at(self.entries@, i as int)
                    == seq_str_views(p@) && self@.contains_key(seq_str_views(p@)) && self@[
                    seq_str_views(p@)
                ] == node_view(self.entries@[i as int].1),
                None => !self@.contains_key(seq_str_views(p@)) && forall|i: int|
                    0 <= i < self.entries@.len() ==> key_at(self.entries@, i) != seq_str_views(
                        p@,
                    ),
            },
    {
        let mut i: usize = 0;
        while i < self.entries.len()
            invariant
                self.wf(),
                i <= self.entries@.len(),
                forall|j: int|
                    0 <= j < i ==> key_at(self.entries@, j) != seq_str_views(p@),
            decreases self.entries.len() - i,
        {
            if segs_eq(&self.entries[i].0, p) {
                proof {
                    lemma_entries_map_props(self.entries@);
                    assert(key_at(self.entries@, i as int) == seq_str_views(p@));
                    assert(entries_map(self.entries@).contains_key(key_at(self.entries@, i as int)));
                    assert(entries_map(self.entries@)[key_at(self.entries@, i as int)]
                        == node_view(self.entries@[i as int].1));
                }
                return Some(i);
            }
            i = i + 1;
        }
        proof {
            lemma_entries_map_props(self.entries@);
            if self@.contains_key(seq_str_views(p@)) {
                let w = choose|w: int|
                    0 <= w < self.entries@.len() && key_at(self.entries@, w) == seq_str_views(p@);
                assert(key_at(self.entries@, w) != seq_str_views(p@));
            }
        }
        None
    }

    /// Whether `p` is a directory.
    pub fn is_dir(&self, p: &Vec<String>) -> (r: bool)
        requires
            self.wf(),
        ensures
            r == is_dir_spec(self@, seq_str_views(p@)),
    {
        match self.find_entry(p) {
            Some(i) => match &self.entries[i].1 {
                FsNode::Dir => true,
                FsNode::File(_) => false,
            },
            None => false,
        }
    }

    /// Whether `p` is a regular file.
    pub fn is_file(&self, p: &Vec<String>) -> (r: bool)
        requires
            self.wf(),
        ensures
            r == is_file_spec(self@, seq_str_views(p@)),
    {
        match self.find_entry(p) {
            Some(i) => match &self.entries[i].1 {
                FsNode::Dir => false,
                FsNode::File(_) => true,
            },
            None => false,
        }
    }

    /// The contents of the file at `p`, if `p` is a file.
    pub fn read_file(&self, p: &Vec<String>) -> (r: Option<Vec<u8>>)
        requires
            self.wf(),
        ensures
            match r {
                Some(c) => self@.contains_key(seq_str_views(p@)) && self@[seq_str_views(p@)]
                    == NodeView::File(c@),
                None => !is_file_spec(self@, seq_str_views(p@)),
            },
    {
        match self.find_entry(p) {
            Some(i) => match &self.entries[i].1 {
                FsNode::Dir => None,
                FsNode::File(c) => Some(clone_bytes(c)),
            },
            None => None,
        }
    }

    /// Sets the node at `p`, replacing any node already there.
    pub fn set_node(&mut self, p: Vec<String>, n: FsNode)
        requires
            old(self).wf(),
        ensures
            final(self).wf(),
            final(self)@ == old(self)@.insert(seq_str_views(p@), node_view(n)),
    {
        let ghost k = seq_str_views(p@);
        let ghost nv = node_view(n);
        match self.find_entry(&p) {
            Some(i) => {
                let ghost s0 = self.entries@;
                self.entries.remove(i);
                self.entries.insert(i, (p, n));
                proof {
                    assert(self.entries@ =~= s0.update(i as int, self.entries@[i as int]));
                    assert(key_at(self.entries@, i as int) == k);
                    assert(node_view(self.entries@[i as int].1) == nv);
                    assert(key_at(self.entries@, i as int) == key_at(s0, i as int));
                    assert forall|a: int, b: int|
                        0 <= a < b < self.entries@.len() implies key_at(self.entries@, a)
                        != key_at(self.entries@, b) by {
                        assert(key_at(self.entries@, a) == key_at(s0, a));
                        assert(key_at(self.entries@, b) == key_at(s0, b));
                    }
                    lemma_entries_map_update(s0, i as int, self.entries@[i as int]);
                }
            },
            None => {
                let ghost s0 = self.entries@;
                self.entries.push((p, n));
                proof {
                    assert(self.entries@.drop_last() =~= s0);
                    assert(key_at(self.entries@, s0.len() as int) == k);
                    assert(node_view(self.entries@[s0.len() as int].1) == nv);
                    assert forall|a: int, b: int|
                        0 <= a < b < self.entries@.len() implies key_at(self.entries@, a)
                        != key_at(self.entries@, b) by {
                        assert(key_at(self.entries@, a) == key_at(s0, a));
                        if b < s0.len() {
                            assert(key_at(self.entries@, b) == key_at(s0, b));
                        } else {
                            assert(key_at(self.entries@, b) == k);
                            assert(key_at(s0, a) != k);
                        }
                    }
                }
            },
        }
    }

    /// Removes `p` and everything under it.
    pub fn remove_subtree(&mut self, p: &Vec<String>)
        requires
            old(self).wf(),
        ensures
            final(self).wf(),
            final(self)@ == old(self)@.remove_keys(keys_under(seq_str_views(p@))),
    {
        let ghost orig = self.entries@;
        let ghost pv = seq_str_views(p@);
        let mut kept: Vec<(Vec<String>, FsNode)> = Vec::new();
        let mut i: usize = 0;
        proof {
            assert(orig.take(0) =~= Seq::<(Vec<String>, FsNode)>::empty());
            assert(entries_map(kept@) =~= entries_map(orig.take(0)).remove_keys(keys_under(pv)));
        }
        while i < self.entries.len()
            invariant
                self.wf(),
                self.entries@ == orig,
                i <= orig.len(),
                pv == seq_str_views(p@),
                distinct_keys(kept@),
                entries_map(kept@) == entries_map(orig.take(i as int)).remove_keys(
                    keys_under(pv),
                ),
                forall|j: int|
                    0 <= j < kept@.len() ==> entries_map(orig.take(i as int)).contains_key(
                        #[trigger] key_at(kept@, j),
                    ),
            decreases self.entries.len() - i,
        {
            let ghost ti = orig.take(i as int);
            let ghost ti1 = orig.take(i + 1);
            proof {
                assert(ti1.drop_last() =~= ti);
                assert(ti1.last() == orig[i as int]);
                lemma_distinct_take(orig, i as int);
                lemma_distinct_take(orig, i + 1);
            }
            let e = &self.entries[i];
            let keep = !path_starts_with(&e.0, p);
            if keep {
                let ghost kept0 = kept@;
                let copied = (clone_segs(&e.0), clone_node(&e.1));
                proof {
                    assert(seq_str_views(copied.0@) == key_at(orig, i as int));
                    assert(node_view(copied.1) == node_view(orig[i as int].1));
                }
                kept.push(copied);
                proof {
                    assert(kept@.drop_last() =~= kept0);
                    assert(key_at(kept@, kept0.len() as int) == key_at(orig, i as int));
                    lemma_entries_map_props(ti);
                    lemma_entries_map_props(ti1);
                    assert forall|a: int, b: int|
                        0 <= a < b < kept@.len() implies key_at(kept@, a) != key_at(
                        kept@,
                        b,
                    ) by {
                        assert(key_at(kept@, a) == key_at(kept0, a));
                        if b < kept0.len() {
                            assert(key_at(kept@, b) == key_at(kept0, b));
                        } else {
                            assert(key_at(kept@, b) == key_at(orig, i as int));
                            assert(entries_map(ti).contains_key(key_at(kept0, a)));
                            let w = choose|w: int|
                                0 <= w < ti.len() && key_at(ti, w) == key_at(kept0, a);
                            assert(key_at(orig, w) == key_at(ti, w));
                            assert(key_at(orig, w) != key_at(orig, i as int));
                        }
                    }
                    assert(entries_map(kept@) =~= entries_map(ti1).remove_keys(keys_under(pv)));
                    assert forall|j: int| 0 <= j < kept@.len() implies entries_map(
                        ti1,
                    ).contains_key(#[trigger] key_at(kept@, j)) by {
                        if j < kept0.len() {
                            assert(key_at(kept@, j) == key_at(kept0, j));
                            assert(entries_map(ti).contains_key(key_at(kept0, j)));
                            assert(entries_map(ti1) == entries_map(ti).insert(
                                key_at(orig, i as int),
                                node_view(orig[i as int].1),
                            ));
                        } else {
                            assert(key_at(kept@, j) == key_at(orig, i as int));
                            assert(key_at(ti1, i as int) == key_at(orig, i as int));
                        }
                    }
                }
            } else {
                proof {
                    assert(is_under(key_at(orig, i as int), pv));
                    assert(entries_map(kept@) =~= entries_map(ti1).remove_keys(keys_under(pv)));
                }
            }
            i = i + 1;
        }
        proof {
            assert(orig.take(orig.len() as int) =~= orig);
        }
        self.entries = kept;
    }

    /// Creates directories along every prefix of `p`, failing without change
    /// when a regular file stands in the way.
    pub fn create_dir_all(&mut self, p: &Vec<String>) -> (r: Result<(), InstallError>)
        requires
            old(self).wf(),
        ensures
            final(self).wf(),
            r is Ok <==> dirs_ok(old(self)@, seq_str_views(p@)),
            r is Ok ==> final(self)@ == old(self)@.union_prefer_right(
                dirs_to(seq_str_views(p@)),
            ),
            r is Err ==> final(self)@ == old(self)@ && r == Err::<(), InstallError>(
                InstallError::IoFailure,
            ),
    {
        let ghost pv = seq_str_views(p@);
        let mut i: usize = 0;
        while i < p.len()
            invariant
                self.wf(),
                self == old(self),
                i <= p.len(),
                pv == seq_str_views(p@),
                forall|j: int| 1 <= j <= i ==> !is_file_spec(self@, #[trigger] pv.take(j)),
            decreases p.len() - i,
        {
            let pre = prefix_of(p, i + 1);
            if self.is_file(&pre) {
                return Err(InstallError::IoFailure);
            }
            i = i + 1;
        }
        let mut i: usize = 0;
        proof {
            assert(self@.union_prefer_right(
                Map::new(
                    |k: Seq<Seq<char>>| 1 <= k.len() <= 0 && k == pv.take(k.len() as int),
                    |k: Seq<Seq<char>>| NodeView::Dir,
                ),
            ) =~= self@);
        }
        while i < p.len()
            invariant
                self.wf(),
                i <= p.len(),
                pv == seq_str_views(p@),
                self@ == old(self)@.union_prefer_right(
                    Map::new(
                        |k: Seq<Seq<char>>| 1 <= k.len() <= i && k == pv.take(k.len() as int),
                        |k: Seq<Seq<char>>| NodeView::Dir,
                    ),
                ),
            decreases p.len() - i,
        {
            let pre = prefix_of(p, i + 1);
            self.set_node(pre, FsNode::Dir);
            proof {
                assert(self@ =~= old(self)@.union_prefer_right(
                    Map::new(
                        |k: Seq<Seq<char>>| 1 <= k.len() <= i + 1 && k == pv.take(
                            k.len() as int,
                        ),
                        |k: Seq<Seq<char>>| NodeView::Dir,
                    ),
                ));
            }
            i = i + 1;
        }
        proof {
            assert(self@ =~= old(self)@.union_prefer_right(dirs_to(pv)));
        }
        Ok(())
    }

    /// Stages the file `p` with the given contents, creating the directories
    /// above it; fails without change when a directory is in the way.
    pub fn insert_file(&mut self, p: &Vec<String>, content: Vec<u8>) -> (r: Result<
        (),
        InstallError,
    >)
        requires
            old(self).wf(),
            p@.len() >= 1,
        ensures
            final(self).wf(),
            r is Ok <==> dirs_ok(old(self)@, seq_str_views(p@).drop_last()) && !is_dir_spec(
                old(self)@,
                seq_str_views(p@),
            ),
            r is Ok ==> final(self)@ == old(self)@.union_prefer_right(
                dirs_to(seq_str_views(p@).drop_last()),
            ).insert(seq_str_views(p@), NodeView::File(content@)),
            r is Err ==> final(self)@ == old(self)@ && r == Err::<(), InstallError>(
                InstallError::IoFailure,
            ),
    {
        let ghost pv = seq_str_views(p@);
        if self.is_dir(p) {
            return Err(InstallError::IoFailure);
        }
        let parent = prefix_of(p, p.len() - 1);
        proof {
            assert(seq_str_views(parent@) =~= pv.drop_last());
        }
        match self.create_dir_all(&parent) {
            Ok(()) => {},
            Err(e) => {
                return Err(e);
            },
        }
        let pc = clone_segs(p);
        self.set_node(pc, FsNode::File(content));
        Ok(())
    }
}

/// Splitting a concatenation at the length of its left part gives the parts
/// back.
pub proof fn lemma_concat_parts(a: Seq<Seq<char>>, b: Seq<Seq<char>>)
    ensures
        (a + b).take(a.len() as int) == a,
        (a + b).skip(a.len() as int) == b,
{
    assert((a + b).take(a.len() as int) =~= a);
    assert((a + b).skip(a.len() as int) =~= b);
}

impl FsTree {
    /// The entries at or under `p` (but not `p` itself), keyed by their path
    /// relative to `p`, with copies of their nodes.
    pub fn entries_under(&self, p: &Vec<String>) -> (r: Vec<(Vec<String>, FsNode)>)
        requires
            self.wf(),
        ensures
            distinct_keys(r@),
            entries_map(r@) == sub_map(self@, seq_str_views(p@)),
    {
        let ghost orig = self.entries@;
        let ghost pv = seq_str_views(p@);
        let mut out: Vec<(Vec<String>, FsNode)> = Vec::new();
        let mut i: usize = 0;
        proof {
            assert(orig.take(0) =~= Seq::<(Vec<String>, FsNode)>::empty());
            assert(entries_map(out@) =~= sub_map(entries_map(orig.take(0)), pv));
        }
        while i < self.entries.len()
            invariant
                self.wf(),
                self.entries@ == orig,
                i <= orig.len(),
                pv == seq_str_views(p@),
                distinct_keys(out@),
                entries_map(out@) == sub_map(entries_map(orig.take(i as int)), pv),
                forall|j: int|
                    0 <= j < out@.len() ==> entries_map(orig.take(i as int)).contains_key(
                        pv + #[trigger] key_at(out@, j),
                    ),
            decreases self.entries.len() - i,
        {
            let ghost ti = orig.take(i as int);
            let ghost ti1 = orig.take(i + 1);
            let ghost k = key_at(orig, i as int);
            proof {
                assert(ti1.drop_last() =~= ti);
                assert(ti1.last() == orig[i as int]);
                lemma_distinct_take(orig, i as int);
                lemma_distinct_take(orig, i + 1);
                lemma_entries_map_props(ti);
                lemma_entries_map_props(ti1);
            }
            let e = &self.entries[i];
            if e.0.len() > p.len() && path_starts_with(&e.0, p) {
                let ghost out0 = out@;
                let ghost relv = k.skip(pv.len() as int);
                let rel = suffix_of(&e.0, p.len());
                let copied = (rel, clone_node(&e.1));
                proof {
                    assert(seq_str_views(copied.0@) == relv);
                    assert(pv + relv =~= k);
                    assert(relv.len() >= 1);
                }
                out.push(copied);
                proof {
                    assert(out@.drop_last() =~= out0);
                    assert(key_at(out@, out0.len() as int) == relv);
                    assert(node_view(out@[out0.len() as int].1) == node_view(orig[i as int].1));
                    assert forall|a2: int, b2: int|
                        0 <= a2 < b2 < out@.len() implies key_at(out@, a2) != key_at(
                        out@,
                        b2,
                    ) by {
                        assert(key_at(out@, a2) == key_at(out0, a2));
                        if b2 < out0.len() {
                            assert(key_at(out@, b2) == key_at(out0, b2));
                        } else {
                            assert(key_at(out@, b2) == relv);
                            assert(entries_map(ti).contains_key(pv + key_at(out0, a2)));
                            let w = choose|w: int|
                                0 <= w < ti.len() && key_at(ti, w) == pv + key_at(out0, a2);
                            assert(key_at(orig, w) == key_at(ti, w));
                            assert(key_at(orig, w) != k);
                            if key_at(out@, a2) == relv {
                                assert(pv + key_at(out0, a2) =~= k);
                            }
                        }
                    }
                    assert forall|rel2: Seq<Seq<char>>| true implies #[trigger] entries_map(
                        out@,
                    ).contains_key(rel2) == sub_map(entries_map(ti1), pv).contains_key(rel2)
                        && (entries_map(out@).contains_key(rel2) ==> entries_map(out@)[rel2]
                        == sub_map(entries_map(ti1), pv)[rel2]) by {
                        lemma_concat_parts(pv, rel2);
                        if rel2 == relv {
                            assert(pv + rel2 =~= k);
                        }
                    }
                    assert(entries_map(out@) =~= sub_map(entries_map(ti1), pv));
                    assert forall|j: int| 0 <= j < out@.len() implies entries_map(
                        ti1,
                    ).contains_key(pv + #[trigger] key_at(out@, j)) by {
                        if j < out0.len() {
                            assert(key_at(out@, j) == key_at(out0, j));
                            assert(entries_map(ti).contains_key(pv + key_at(out0, j)));
                        } else {
                            assert(key_at(out@, j) == relv);
                            assert(pv + relv =~= k);
                            assert(key_at(ti1, i as int) == k);
                        }
                    }
                }
            } else {
                proof {
                    assert forall|rel2: Seq<Seq<char>>| true implies #[trigger] sub_map(
                        entries_map(ti1),
                        pv,
                    ).contains_key(rel2) == sub_map(entries_map(ti), pv).contains_key(rel2) && (
                    sub_map(entries_map(ti), pv).contains_key(rel2) ==> sub_map(
                        entries_map(ti1),
                        pv,
                    )[rel2] == sub_map(entries_map(ti), pv)[rel2]) by {
                        lemma_concat_parts(pv, rel2);
                        if rel2.len() >= 1 && pv + rel2 == k {
                            assert(is_under(k, pv));
                            assert(false);
                        }
                    }
                    assert(entries_map(out@) =~= sub_map(entries_map(ti1), pv));
                }
            }
            i = i + 1;
        }
        proof {
            assert(orig.take(orig.len() as int) =~= orig);
        }
        out
    }

    /// Merge-copies the tree under `src` into `dest`: creates `dest` and any
    /// missing directories above it, copies every node under `src` to the
    /// same relative path under `dest`, overwrites files already there and
    /// deletes nothing.  Fails without change when `src` is not a directory,
    /// when a regular file stands at or on the way to `dest`, or when a
    /// copied node would change kind over what the destination holds.
    pub fn merge_copy(&mut self, src: &Vec<String>, dest: &Vec<String>) -> (r: Result<
        (),
        InstallError,
    >)
        requires
            old(self).wf(),
            dest@.len() >= 1,
        ensures
            final(self).wf(),
            r is Ok <==> merge_ok(old(self)@, seq_str_views(src@), seq_str_views(dest@)),
            r is Ok ==> final(self)@ == merge_result(
                old(self)@,
                seq_str_views(src@),
                seq_str_views(dest@),
            ),
            r is Err ==> final(self)@ == old(self)@,
            r == Err::<(), InstallError>(InstallError::SourceNotDirectory) <==> !is_dir_spec(
                old(self)@,
                seq_str_views(src@),
            ),
            is_dir_spec(old(self)@, seq_str_views(src@)) && is_file_spec(
                old(self)@,
                seq_str_views(dest@),
            ) ==> r == Err::<(), InstallError>(InstallError::DestinationIsFile),
            r is Err ==> (r == Err::<(), InstallError>(InstallError::SourceNotDirectory) || r
                == Err::<(), InstallError>(InstallError::DestinationIsFile) || r == Err::<
                (),
                InstallError,
            >(InstallError::IoFailure)),
    {
        let ghost sv = seq_str_views(src@);
        let ghost dv = seq_str_views(dest@);
        if !self.is_dir(src) {
            return Err(InstallError::SourceNotDirectory);
        }
        if self.is_file(dest) {
            proof {
                assert(dv.take(dv.len() as int) =~= dv);
            }
            return Err(InstallError::DestinationIsFile);
        }
        let mut i: usize = 0;
        while i < dest.len()
            invariant
                self.wf(),
                self == old(self),
                i <= dest@.len(),
                sv == seq_str_views(src@),
                dv == seq_str_views(dest@),
                is_dir_spec(self@, sv),
                !is_file_spec(self@, dv),
                forall|j: int| 1 <= j <= i ==> !is_file_spec(self@, #[trigger] dv.take(j)),
            decreases dest.len() - i,
        {
            let pre = prefix_of(dest, i + 1);
            if self.is_file(&pre) {
                proof {
                    assert(is_file_spec(self@, dv.take(i + 1)));
                }
                return Err(InstallError::IoFailure);
            }
            i = i + 1;
        }
        proof {
            assert(dv.take(dv.len() as int) =~= dv);
            assert(dirs_ok(self@, dv));
        }
        let snap = self.entries_under(src);
        let ghost snapm = entries_map(snap@);
        proof {
            lemma_entries_map_props(snap@);
        }
        let mut j: usize = 0;
        while j < snap.len()
            invariant
                self.wf(),
                self == old(self),
                j <= snap@.len(),
                sv == seq_str_views(src@),
                dv == seq_str_views(dest@),
                dv.len() >= 1,
                is_dir_spec(self@, sv),
                !is_file_spec(self@, dv),
                dirs_ok(self@, dv),
                snapm == entries_map(snap@),
                snapm == sub_map(self@, sv),
                distinct_keys(snap@),
                forall|w: int|
                    0 <= w < j ==> !(self@.contains_key(dv + #[trigger] key_at(snap@, w))
                        && ((self@[dv + key_at(snap@, w)] is Dir) != (snapm[key_at(
                        snap@,
                        w,
                    )] is Dir))),
            decreases snap.len() - j,
        {
            let ghost relj = key_at(snap@, j as int);
            let target = concat_paths(dest, &snap[j].0);
            proof {
                lemma_entries_map_props(snap@);
                assert(entries_map(snap@).contains_key(relj));
                assert(sub_map(self@, sv).contains_key(relj));
                assert(relj.len() >= 1 && self@.contains_key(sv + relj));
                assert(self@[sv + relj] == snapm[relj]);
                assert(snapm[relj] == node_view(snap@[j as int].1));
                assert(seq_str_views(target@) == dv + relj);
            }
            let t_dir = self.is_dir(&target);
            let t_file = self.is_file(&target);
            match &snap[j].1 {
                FsNode::Dir => {
                    if t_file {
                        proof {
                            assert(self@[dv + relj] is File);
                            assert(self@[sv + relj] is Dir);
                            assert(!merge_ok(self@, sv, dv));
                        }
                        return Err(InstallError::DestinationIsFile);
                    }
                },
                FsNode::File(_) => {
                    if t_dir {
                        proof {
                            assert(self@[dv + relj] is Dir);
                            assert(!(self@[sv + relj] is Dir));
                            assert(!merge_ok(self@, sv, dv));
                        }
                        return Err(InstallError::IoFailure);
                    }
                },
            }
            j = j + 1;
        }
        proof {
            assert(merge_ok(self@, sv, dv)) by {
                assert forall|rel: Seq<Seq<char>>|
                    rel.len() >= 1 && self@.contains_key(#[trigger] (sv + rel))
                        && self@.contains_key(dv + rel) implies ((self@[sv + rel] is Dir) <==> (
                self@[dv + rel] is Dir)) by {
                    assert(sub_map(self@, sv).contains_key(rel));
                    let w = choose|w: int|
                        0 <= w < snap@.len() && key_at(snap@, w) == rel;
                    assert(!(self@.contains_key(dv + key_at(snap@, w)) && ((self@[dv + key_at(
                        snap@,
                        w,
                    )] is Dir) != (snapm[key_at(snap@, w)] is Dir))));
                    assert(snapm[rel] == self@[sv + rel]);
                }
            }
        }
        let ghost m0 = self@;
        let mut i: usize = 0;
        proof {
            assert(self@.union_prefer_right(
                Map::new(
                    |k: Seq<Seq<char>>| 1 <= k.len() <= 0 && k == dv.take(k.len() as int),
                    |k: Seq<Seq<char>>| NodeView::Dir,
                ),
            ) =~= self@);
        }
        while i < dest.len()
            invariant
                self.wf(),
                i <= dest@.len(),
                dv == seq_str_views(dest@),
                self@ == m0.union_prefer_right(
                    Map::new(
                        |k: Seq<Seq<char>>| 1 <= k.len() <= i && k == dv.take(k.len() as int),
                        |k: Seq<Seq<char>>| NodeView::Dir,
                    ),
                ),
            decreases dest.len() - i,
        {
            let pre = prefix_of(dest, i + 1);
            self.set_node(pre, FsNode::Dir);
            proof {
                assert(self@ =~= m0.union_prefer_right(
                    Map::new(
                        |k: Seq<Seq<char>>| 1 <= k.len() <= i + 1 && k == dv.take(
                            k.len() as int,
                        ),
                        |k: Seq<Seq<char>>| NodeView::Dir,
                    ),
                ));
            }
            i = i + 1;
        }
        proof {
            assert(self@ =~= m0.union_prefer_right(dirs_to(dv)));
            assert(snap@.take(0) =~= Seq::<(Vec<String>, FsNode)>::empty());
            assert(self@ =~= m0.union_prefer_right(dirs_to(dv)).union_prefer_right(
                Map::new(
                    |k: Seq<Seq<char>>|
                        k.len() > dv.len() && k.take(dv.len() as int) == dv && entries_map(
                            snap@.take(0),
                        ).contains_key(k.skip(dv.len() as int)),
                    |k: Seq<Seq<char>>| entries_map(snap@.take(0))[k.skip(dv.len() as int)],
                ),
            ));
        }
        let mut j: usize = 0;
        while j < snap.len()
            invariant
                self.wf(),
                j <= snap@.len(),
                sv == seq_str_views(src@),
                dv == seq_str_views(dest@),
                distinct_keys(snap@),
                snapm == entries_map(snap@),
                snapm == sub_map(m0, sv),
                self@ == m0.union_prefer_right(dirs_to(dv)).union_prefer_right(
                    Map::new(
                        |k: Seq<Seq<char>>|
                            k.len() > dv.len() && k.take(dv.len() as int) == dv && entries_map(
                                snap@.take(j as int),
                            ).contains_key(k.skip(dv.len() as int)),
                        |k: Seq<Seq<char>>| entries_map(snap@.take(j as int))[k.skip(
                            dv.len() as int,
                        )],
                    ),
                ),
            decreases snap.len() - j,
        {
            let ghost tj = snap@.take(j as int);
            let ghost tj1 = snap@.take(j + 1);
            let ghost relv = key_at(snap@, j as int);
            proof {
                assert(tj1.drop_last() =~= tj);
                assert(tj1.last() == snap@[j as int]);
                lemma_distinct_take(snap@, j + 1);
                lemma_entries_map_props(snap@);
                assert(entries_map(snap@).contains_key(relv));
                assert(relv.len() >= 1);
            }
            let target = concat_paths(dest, &snap[j].0);
            let node = clone_node(&snap[j].1);
            proof {
                assert(seq_str_views(target@) == dv + relv);
            }
            self.set_node(target, node);
            proof {
                lemma_concat_parts(dv, relv);
                assert(entries_map(tj1) == entries_map(tj).insert(
                    relv,
                    node_view(snap@[j as int].1),
                ));
                let prev = m0.union_prefer_right(dirs_to(dv)).union_prefer_right(
                    Map::new(
                        |k: Seq<Seq<char>>|
                            k.len() > dv.len() && k.take(dv.len() as int) == dv && entries_map(
                                tj,
                            ).contains_key(k.skip(dv.len() as int)),
                        |k: Seq<Seq<char>>| entries_map(tj)[k.skip(dv.len() as int)],
                    ),
                );
                let next = m0.union_prefer_right(dirs_to(dv)).union_prefer_right(
                    Map::new(
                        |k: Seq<Seq<char>>|
                            k.len() > dv.len() && k.take(dv.len() as int) == dv && entries_map(
                                tj1,
                            ).contains_key(k.skip(dv.len() as int)),
                        |k: Seq<Seq<char>>| entries_map(tj1)[k.skip(dv.len() as int)],
                    ),
                );
                assert(self@ == prev.insert(dv + relv, node_view(snap@[j as int].1)));
                assert forall|k2: Seq<Seq<char>>| true implies #[trigger] next.contains_key(k2)
                    == prev.insert(dv + relv, node_view(snap@[j as int].1)).contains_key(k2) && (
                next.contains_key(k2) ==> next[k2] == prev.insert(
                    dv + relv,
                    node_view(snap@[j as int].1),
                )[k2]) by {
                    if k2.len() > dv.len() && k2.take(dv.len() as int) == dv {
                        assert(dv + k2.skip(dv.len() as int) =~= k2);
                        if k2.skip(dv.len() as int) == relv {
                            assert(k2 == dv + relv);
                        }
                    }
                }
                assert(self@ =~= next);
            }
            j = j + 1;
        }
        proof {
            assert(snap@.take(snap@.len() as int) =~= snap@);
            assert(self@ =~= merge_result(m0, sv, dv)) by {
                assert forall|k2: Seq<Seq<char>>|
                    k2.len() > dv.len() && k2.take(dv.len() as int) == dv implies (dv + k2.skip(
                    dv.len() as int,
                ) =~= k2) by {}
            }
        }
        Ok(())
    }
}

/// A key a merge-copy into `dest` may write: a prefix of `dest` or a path
/// strictly under it.
pub open spec fn merge_writes(dest: Seq<Seq<char>>, k: Seq<Seq<char>>) -> bool {
    (1 <= k.len() <= dest.len() && k == dest.take(k.len() as int)) || (k.len() > dest.len()
        && k.take(dest.len() as int) == dest)
}

/// A merge-copy changes nothing outside the keys it writes.
pub proof fn lemma_merge_frame(
    m: Map<Seq<Seq<char>>, NodeView>,
    src: Seq<Seq<char>>,
    dest: Seq<Seq<char>>,
    k: Seq<Seq<char>>,
)
    requires
        !merge_writes(dest, k),
    ensures
        merge_result(m, src, dest).contains_key(k) == m.contains_key(k),
        m.contains_key(k) ==> merge_result(m, src, dest)[k] == m[k],
{
}

/// Merge-copy is idempotent: merging the same source into the same
/// destination a second time is again possible and leaves the tree of the
/// first merge unchanged, provided the destination does not lie inside the
/// source tree or the other way round.
pub proof fn lemma_merge_copy_idempotent(
    m: Map<Seq<Seq<char>>, NodeView>,
    src: Seq<Seq<char>>,
    dest: Seq<Seq<char>>,
)
    requires
        src.len() >= 1,
        dest.len() >= 1,
        merge_ok(m, src, dest),
        src == dest || (!is_under(dest, src) && !is_under(src, dest)),
    ensures
        merge_ok(merge_result(m, src, dest), src, dest),
        merge_result(merge_result(m, src, dest), src, dest) == merge_result(m, src, dest),
{
    let m1 = merge_result(m, src, dest);
    assert forall|rel: Seq<Seq<char>>| rel.len() >= 1 implies #[trigger] m1.contains_key(
        src + rel,
    ) == m.contains_key(src + rel) && (m.contains_key(src + rel) ==> m1[src + rel] == m[src
        + rel]) by {
        lemma_concat_parts(src, rel);
        if src == dest {
            assert((src + rel).len() > dest.len() && (src + rel).take(dest.len() as int)
                == dest);
        } else {
            assert(!merge_writes(dest, src + rel)) by {
                if (src + rel).len() <= dest.len() && src + rel == dest.take(
                    (src + rel).len() as int,
                ) {
                    assert(dest.take((src + rel).len() as int).take(src.len() as int)
                        =~= dest.take(src.len() as int));
                    assert(is_under(dest, src));
                }
                if (src + rel).len() > dest.len() && (src + rel).take(dest.len() as int)
                    == dest {
                    if dest.len() <= src.len() {
                        assert((src + rel).take(dest.len() as int) =~= src.take(
                            dest.len() as int,
                        ));
                        assert(src.take(dest.len() as int) =~= (src + rel).take(
                            src.len() as int,
                        ).take(dest.len() as int));
                        assert(is_under(src, dest));
                    } else {
                        assert(dest.take(src.len() as int) =~= (src + rel).take(
                            dest.len() as int,
                        ).take(src.len() as int));
                        assert((src + rel).take(src.len() as int) =~= src);
                        assert(dest.take(src.len() as int) =~= src);
                        assert(is_under(dest, src));
                    }
                }
            }
            lemma_merge_frame(m, src, dest, src + rel);
        }
    }
    assert(is_dir_spec(m1, src)) by {
        if src == dest {
            assert(dest.take(dest.len() as int) =~= dest);
            assert(dirs_to(dest).contains_key(dest));
            assert(!(src.len() > dest.len()));
        } else {
            assert(!merge_writes(dest, src)) by {
                if 1 <= src.len() <= dest.len() && src == dest.take(src.len() as int) {
                    assert(is_under(dest, src));
                }
                if src.len() > dest.len() && src.take(dest.len() as int) == dest {
                    assert(is_under(src, dest));
                }
            }
            lemma_merge_frame(m, src, dest, src);
        }
    }
    assert(dirs_ok(m1, dest)) by {
        assert forall|i: int| 1 <= i <= dest.len() implies !is_file_spec(
            m1,
            #[trigger] dest.take(i),
        ) by {
            assert(dirs_to(dest).contains_key(dest.take(i)));
            assert(!(dest.take(i).len() > dest.len()));
            if i < dest.len() {
                assert(dest.take(i).len() < dest.len());
            } else {
                assert(dest.take(i) =~= dest);
                assert(!(dest.len() > dest.len()));
            }
            assert(m1[dest.take(i)] == NodeView::Dir || remap_under(m, src, dest).contains_key(
                dest.take(i),
            ));
        }
    }
    assert forall|rel: Seq<Seq<char>>|
        rel.len() >= 1 && m1.contains_key(#[trigger] (src + rel)) && m1.contains_key(
            dest + rel,
        ) implies ((m1[src + rel] is Dir) <==> (m1[dest + rel] is Dir)) by {
        lemma_concat_parts(dest, rel);
        assert((dest + rel).len() > dest.len() && (dest + rel).take(dest.len() as int) =~= dest);
        assert(m.contains_key(src + rel));
        assert(remap_under(m, src, dest).contains_key(dest + rel));
        assert(m1[dest + rel] == m[src + rel]);
    }
    assert forall|k: Seq<Seq<char>>| true implies #[trigger] merge_result(
        m1,
        src,
        dest,
    ).contains_key(k) == m1.contains_key(k) && (m1.contains_key(k) ==> merge_result(
        m1,
        src,
        dest,
    )[k] == m1[k]) by {
        if merge_writes(dest, k) {
            if k.len() > dest.len() && k.take(dest.len() as int) == dest {
                let rel = k.skip(dest.len() as int);
                lemma_concat_parts(dest, rel);
                assert(dest + rel =~= k);
                assert(rel.len() >= 1);
                assert(m1.contains_key(src + rel) == m.contains_key(src + rel));
                if m.contains_key(src + rel) {
                    assert(m1[src + rel] == m[src + rel]);
                    assert(remap_under(m, src, dest).contains_key(k));
                    assert(m1[k] == m[src + rel]);
                }
            } else {
                assert(dirs_to(dest).contains_key(k));
                assert(m1.contains_key(k));
                if !(k.len() > dest.len() && k.take(dest.len() as int) == dest) {
                    assert(m1[k] == NodeView::Dir || remap_under(m, src, dest).contains_key(k));
                }
            }
        }
    }
    assert(merge_result(m1, src, dest) =~= m1);
}

/// Whether two segment paths are the same path.
pub fn segs_eq(a: &Vec<String>, b: &Vec<String>) -> (r: bool)
    ensures
        r == (seq_str_views(a@) == seq_str_views(b@)),
{
    if a.len() != b.len() {
        proof {
            assert(seq_str_views(a@).len() != seq_str_views(b@).len());
        }
        return false;
    }
    let mut i: usize = 0;
    while i < a.len()
        invariant
            i <= a.len(),
            a@.len() == b@.len(),
            forall|j: int| 0 <= j < i ==> a@[j]@ == b@[j]@,
        decreases a.len() - i,
    {
        if !a[i].eq(&b[i]) {
            proof {
                assert(seq_str_views(a@)[i as int] != seq_str_views(b@)[i as int]);
            }
            return false;
        }
        i = i + 1;
    }
    proof {
        assert(seq_str_views(a@) =~= seq_str_views(b@));
    }
    true
}

/// Whether `k` lies at or under `p`.
pub fn path_starts_with(k: &Vec<String>, p: &Vec<String>) -> (r: bool)
    ensures
        r == is_under(seq_str_views(k@), seq_str_views(p@)),
{
    if k.len() < p.len() {
        return false;
    }
    let mut i: usize = 0;
    while i < p.len()
        invariant
            i <= p.len(),
            p@.len() <= k@.len(),
            forall|j: int| 0 <= j < i ==> k@[j]@ == p@[j]@,
        decreases p.len() - i,
    {
        if !k[i].eq(&p[i]) {
            proof {
                assert(seq_str_views(k@).take(p@.len() as int)[i as int] != seq_str_views(
                    p@,
                )[i as int]);
            }
            return false;
        }
        i = i + 1;
    }
    proof {
        assert(seq_str_views(k@).take(p@.len() as int) =~= seq_str_views(p@));
    }
    true
}

/// Copies a byte vector.
pub fn clone_bytes(v: &Vec<u8>) -> (r: Vec<u8>)
    ensures
        r@ == v@,
{
    let r = v.clone();
    proof {
        assert(r@ =~= v@);
    }
    r
}

/// Copies a segment path.
pub fn clone_segs(p: &Vec<String>) -> (r: Vec<String>)
    ensures
        seq_str_views(r@) == seq_str_views(p@),
        r@.len() == p@.len(),
        forall|j: int| 0 <= j < p@.len() ==> (#[trigger] r@[j])@ == p@[j]@,
{
    let mut r: Vec<String> = Vec::new();
    let mut i: usize = 0;
    while i < p.len()
        invariant
            i <= p.len(),
            r@.len() == i,
            forall|j: int| 0 <= j < i ==> (#[trigger] r@[j])@ == p@[j]@,
        decreases p.len() - i,
    {
        r.push(p[i].clone());
        i = i + 1;
    }
    proof {
        assert(seq_str_views(r@) =~= seq_str_views(p@));
    }
    r
}

/// Copies a node.
pub fn clone_node(n: &FsNode) -> (r: FsNode)
    ensures
        node_view(r) == node_view(*n),
{
    match n {
        FsNode::Dir => FsNode::Dir,
        FsNode::File(c) => FsNode::File(clone_bytes(c)),
    }
}

/// The first `n` segments of `p`, as an owned path.
pub fn prefix_of(p: &Vec<String>, n: usize) -> (r: Vec<String>)
    requires
        n <= p@.len(),
    ensures
        seq_str_views(r@) == seq_str_views(p@).take(n as int),
        r@.len() == n,
{
    let mut r: Vec<String> = Vec::new();
    let mut i: usize = 0;
    while i < n
        invariant
            i <= n,
            n <= p@.len(),
            r@.len() == i,
            forall|j: int| 0 <= j < i ==> r@[j]@ == p@[j]@,
        decreases n - i,
    {
        r.push(p[i].clone());
        i = i + 1;
    }
    proof {
        assert(seq_str_views(r@) =~= seq_str_views(p@).take(n as int));
    }
    r
}

/// The segments of `p` after the first `n`, as an owned path.
pub fn suffix_of(p: &Vec<String>, n: usize) -> (r: Vec<String>)
    requires
        n <= p@.len(),
    ensures
        seq_str_views(r@) == seq_str_views(p@).skip(n as int),
        r@.len() == p@.len() - n,
{
    let mut r: Vec<String> = Vec::new();
    let mut i: usize = n;
    while i < p.len()
        invariant
            n <= i <= p@.len(),
            r@.len() == i - n,
            forall|j: int| 0 <= j < i - n ==> r@[j]@ == p@[j + n]@,
        decreases p.len() - i,
    {
        r.push(p[i].clone());
        i = i + 1;
    }
    proof {
        assert(seq_str_views(r@) =~= seq_str_views(p@).skip(n as int));
    }
    r
}

/// The path one segment below `base`.
pub fn child(base: &Vec<String>, name: &str) -> (r: Vec<String>)
    ensures
        seq_str_views(r@) == seq_str_views(base@).push(name@),
        r@.len() == base@.len() + 1,
{
    let mut r = clone_segs(base);
    r.push(name.to_owned());
    proof {
        assert(seq_str_views(r@) =~= seq_str_views(base@).push(name@));
    }
    r
}

/// `a` followed by `b`, as an owned path.
pub fn concat_paths(a: &Vec<String>, b: &Vec<String>) -> (r: Vec<String>)
    ensures
        seq_str_views(r@) == seq_str_views(a@) + seq_str_views(b@),
        r@.len() == a@.len() + b@.len(),
{
    let mut r = clone_segs(a);
    let mut i: usize = 0;
    while i < b.len()
        invariant
            i <= b.len(),
            r@.len() == a@.len() + i,
            forall|j: int| 0 <= j < a@.len() ==> (#[trigger] r@[j])@ == a@[j]@,
            forall|j: int| 0 <= j < i ==> (#[trigger] r@[a@.len() + j])@ == b@[j]@,
        decreases b.len() - i,
    {
        r.push(b[i].clone());
        i = i + 1;
    }
    proof {
        assert forall|k2: int| 0 <= k2 < r@.len() implies seq_str_views(r@)[k2]
            == (seq_str_views(a@) + seq_str_views(b@))[k2] by {
            if k2 >= a@.len() {
                assert(r@[a@.len() + (k2 - a@.len())]@ == b@[k2 - a@.len()]@);
            }
        }
        assert(seq_str_views(r@) =~= seq_str_views(a@) + seq_str_views(b@));
    }
    r
}

} // verus!
