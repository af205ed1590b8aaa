//! The filesystem model the engine is verified against.
//!
//! A filesystem is a finite list of entries, each mapping an absolute path
//! (a non-empty sequence of raw name components) to a node: a directory
//! carrying the permission mode it was created with, or a regular file
//! carrying an identity that stands for its device/inode pair — two paths
//! with the same identity are hard links to the same file.
//!
//! Well-formedness ([`Fs::wf`]) asks that paths are distinct and that every
//! proper prefix of an entry's path is itself present as a directory.  The
//! list order is the (deterministic) order in which directory walks yield
//! entries.

use vstd::prelude::*;

use crate::paths::{name_eq, pview};

verus! {

/// One node of the filesystem model.
#[derive(Clone, Copy, Debug, PartialEq, Eq, Structural)]
pub enum FsNode {
    /// A directory, with the permission mode it was created with.
    Dir(u32),
    /// A regular file; equal identities mean hard links to one file.
    File(u64),
}

/// One filesystem entry: a path and the node found at it.
pub struct Entry {
    pub path: Vec<Vec<u8>>,
    pub node: FsNode,
}

/// The specification view of an entry.
pub ghost struct EntryV {
    pub path: Seq<Seq<u8>>,
    pub node: FsNode,
}

impl Entry {
    pub open spec fn v(self) -> EntryV {
        EntryV { path: pview(self.path@), node: self.node }
    }
}

/// The filesystem model: a list of entries.
pub struct Fs {
    pub entries: Vec<Entry>,
}

/// What the first entry for path `p` in `s` holds, if any.
pub open spec fn lookup(s: Seq<EntryV>, p: Seq<Seq<u8>>) -> Option<FsNode>
    decreases s.len(),
{
    if s.len() == 0 {
        None
    } else if s[0].path == p {
        Some(s[0].node)
    } else {
        lookup(s.drop_first(), p)
    }
}

/// Is `p` resolvable as a directory (the root, or an entry that is a
/// directory)?
pub open spec fn dir_at(s: Seq<EntryV>, p: Seq<Seq<u8>>) -> bool {
    p.len() == 0 || lookup(s, p) matches Some(FsNode::Dir(_))
}

/// `s` with its first entry for `p` removed.
pub open spec fn remove_first(s: Seq<EntryV>, p: Seq<Seq<u8>>) -> Seq<EntryV>
    decreases s.len(),
{
    if s.len() == 0 {
        s
    } else if s[0].path == p {
        s.drop_first()
    } else {
        seq![s[0]] + remove_first(s.drop_first(), p)
    }
}

/// Entry paths are pairwise distinct.
pub open spec fn distinct_paths(s: Seq<EntryV>) -> bool {
    forall|i: int, j: int|
        0 <= i < j < s.len() ==> (#[trigger] s[i].path) != (#[trigger] s[j].path)
}

/// Well-formedness: paths distinct and non-empty, and every proper prefix of
/// an entry's path present as a directory.
pub open spec fn wf_seq(s: Seq<EntryV>) -> bool {
    &&& distinct_paths(s)
    &&& forall|i: int| 0 <= i < s.len() ==> (#[trigger] s[i].path).len() > 0
    &&& forall|i: int, l: int|
        0 <= i < s.len() && 1 <= l < s[i].path.len() ==> dir_at(
            s,
            #[trigger] s[i].path.take(l),
        )
}

impl View for Fs {
    type V = Seq<EntryV>;

    open spec fn view(&self) -> Seq<EntryV> {
        Seq::new(self.entries@.len(), |i: int| self.entries@[i].v())
    }
}

impl Fs {
    pub open spec fn wf(self) -> bool {
        wf_seq(self@)
    }

    /// An empty filesystem (just the implicit root directory).
    pub fn new() -> (r: Fs)
        ensures
            r@ == Seq::<EntryV>::empty(),
            r.wf(),
    {
        let r = Fs { entries: Vec::new() };
        proof {
            assert(r@ =~= Seq::<EntryV>::empty());
        }
        r
    }
}

/// `remove_first` is removal at the index of the first match.
pub proof fn lemma_remove_first_at(s: Seq<EntryV>, p: Seq<Seq<u8>>, k: int)
    requires
        0 <= k < s.len(),
        s[k].path == p,
        forall|j: int| 0 <= j < k ==> s[j].path != p,
    ensures
        remove_first(s, p) == s.remove(k),
    decreases s.len(),
{
    if k == 0 {
        assert(s.drop_first() =~= s.remove(0));
    } else {
        lemma_remove_first_at(s.drop_first(), p, k - 1);
        assert(seq![s[0]] + s.drop_first().remove(k - 1) =~= s.remove(k));
    }
}

impl Fs {
    /// Looks the path up, reporting the node found at it.
    pub fn node_at(&self, p: &Vec<Vec<u8>>) -> (r: Option<FsNode>)
        ensures
            r == lookup(self@, pview(p@)),
    {
        let mut i: usize = 0;
        while i < self.entries.len()
            invariant
                i <= self.entries@.len(),
                forall|j: int| 0 <= j < i ==> self@[j].path != pview(p@),
            decreases self.entries@.len() - i,
        {
            assert(self@[i as int] == self.entries@[i as int].v());
            if crate::paths::path_eq(&self.entries[i].path, p) {
                proof {
                    lemma_lookup_at(self@, pview(p@), i as int);
                }
                return Some(self.entries[i].node);
            }
            i += 1;
        }
        proof {
            lemma_lookup_none(self@, pview(p@));
        }
        None
    }

    /// Looks up the prefix made of the first `n` components of `p`.
    pub fn node_at_prefix(&self, p: &Vec<Vec<u8>>, n: usize) -> (r: Option<FsNode>)
        requires
            n <= p@.len(),
        ensures
            r == lookup(self@, pview(p@).take(n as int)),
    {
        let mut i: usize = 0;
        while i < self.entries.len()
            invariant
                n <= p@.len(),
                i <= self.entries@.len(),
                forall|j: int| 0 <= j < i ==> self@[j].path != pview(p@).take(n as int),
            decreases self.entries@.len() - i,
        {
            assert(self@[i as int] == self.entries@[i as int].v());
            if prefix_matches(&self.entries[i].path, p, n) {
                proof {
                    lemma_lookup_at(self@, pview(p@).take(n as int), i as int);
                }
                return Some(self.entries[i].node);
            }
            i += 1;
        }
        proof {
            lemma_lookup_none(self@, pview(p@).take(n as int));
        }
        None
    }

    /// Appends an entry; callers re-establish well-formedness.
    pub(crate) fn push_entry(&mut self, path: Vec<Vec<u8>>, node: FsNode)
        ensures
            final(self)@ == old(self)@.push(EntryV { path: pview(path@), node }),
    {
        self.entries.push(Entry { path, node });
        proof {
            assert(self@ =~= old(self)@.push(
                EntryV { path: pview(self.entries@.last().path@), node },
            ));
        }
    }

    /// Removes the first entry for `p`, if one is there.
    pub(crate) fn remove_entry(&mut self, p: &Vec<Vec<u8>>)
        ensures
            final(self)@ == remove_first(old(self)@, pview(p@)),
    {
        let mut i: usize = 0;
        while i < self.entries.len()
            invariant
                i <= self.entries@.len(),
                self == old(self),
                forall|j: int| 0 <= j < i ==> self@[j].path != pview(p@),
            decreases self.entries@.len() - i,
        {
            assert(self@[i as int] == self.entries@[i as int].v());
            if crate::paths::path_eq(&self.entries[i].path, p) {
                proof {
                    lemma_remove_first_at(self@, pview(p@), i as int);
                }
                self.entries.remove(i);
                proof {
                    assert(self@ =~= old(self)@.remove(i as int));
                }
                return ;
            }
            i += 1;
        }
        proof {
            lemma_lookup_none(self@, pview(p@));
            lemma_remove_entries(self@, pview(p@));
        }
    }

    /// Adds a directory entry beneath an existing parent directory; reports
    /// whether it could (the path new, non-empty, its parent resolvable).
    pub fn add_dir(&mut self, path: &Vec<Vec<u8>>, mode: u32) -> (r: bool)
        requires
            old(self).wf(),
        ensures
            final(self).wf(),
            r ==> final(self)@ == old(self)@.push(
                EntryV { path: pview(path@), node: FsNode::Dir(mode) },
            ),
            !r ==> final(self)@ == old(self)@,
    {
        self.add_node(path, FsNode::Dir(mode))
    }

    /// Adds a regular-file entry beneath an existing parent directory;
    /// reports whether it could.
    pub fn add_file(&mut self, path: &Vec<Vec<u8>>, ino: u64) -> (r: bool)
        requires
            old(self).wf(),
        ensures
            final(self).wf(),
            r ==> final(self)@ == old(self)@.push(
                EntryV { path: pview(path@), node: FsNode::File(ino) },
            ),
            !r ==> final(self)@ == old(self)@,
    {
        self.add_node(path, FsNode::File(ino))
    }

    fn add_node(&mut self, path: &Vec<Vec<u8>>, node: FsNode) -> (r: bool)
        requires
            old(self).wf(),
        ensures
            final(self).wf(),
            r ==> final(self)@ == old(self)@.push(EntryV { path: pview(path@), node }),
            !r ==> final(self)@ == old(self)@,
    {
        if path.len() == 0 {
            return false;
        }
        if self.node_at(path).is_some() {
            return false;
        }
        let parent_ok = if path.len() == 1 {
            true
        } else {
            match self.node_at_prefix(path, path.len() - 1) {
                Some(FsNode::Dir(_)) => true,
                _ => false,
            }
        };
        if !parent_ok {
            return false;
        }
        let ghost e = EntryV { path: pview(path@), node };
        proof {
            lemma_prefix_dirs_from_parent(self@, pview(path@));
            lemma_wf_push(self@, e);
        }
        let owned = crate::paths::clone_path(path);
        self.push_entry(owned, node);
        true
    }
}

/// If a path's parent is a present directory (or the root), every proper
/// prefix of the path is a present directory.
pub proof fn lemma_prefix_dirs_from_parent(s: Seq<EntryV>, p: Seq<Seq<u8>>)
    requires
        wf_seq(s),
        p.len() > 0,
        dir_at(s, p.take(p.len() - 1)),
    ensures
        forall|l: int| 1 <= l < p.len() ==> dir_at(s, #[trigger] p.take(l)),
{
    let parent = p.take(p.len() - 1);
    assert forall|l: int| 1 <= l < p.len() implies dir_at(s, #[trigger] p.take(l)) by {
        if l < p.len() - 1 {
            lemma_lookup_some(s, parent);
            let i = choose|i: int|
                0 <= i < s.len() && s[i].path == parent && s[i].node == lookup(s, parent)->Some_0;
            assert(dir_at(s, s[i].path.take(l)));
            assert(s[i].path.take(l) =~= p.take(l));
        }
    }
}

/// Does a concrete path equal the first `n` components of `p`?
fn prefix_matches(path: &Vec<Vec<u8>>, p: &Vec<Vec<u8>>, n: usize) -> (r: bool)
    requires
        n <= p@.len(),
    ensures
        r == (pview(path@) == pview(p@).take(n as int)),
{
    if path.len() != n {
        assert(pview(path@).len() != pview(p@).take(n as int).len());
        return false;
    }
    let mut j: usize = 0;
    while j < n
        invariant
            n <= p@.len(),
            path@.len() == n,
            j <= n,
            forall|k: int| 0 <= k < j ==> path@[k]@ == p@[k]@,
        decreases n - j,
    {
        if !name_eq(&path[j], &p[j]) {
            assert(pview(path@)[j as int] != pview(p@).take(n as int)[j as int]);
            return false;
        }
        j += 1;
    }
    assert(pview(path@) =~= pview(p@).take(n as int));
    true
}

/// A found index is what `lookup` reports, provided no earlier entry matches.
pub proof fn lemma_lookup_at(s: Seq<EntryV>, p: Seq<Seq<u8>>, i: int)
    requires
        0 <= i < s.len(),
        s[i].path == p,
        forall|j: int| 0 <= j < i ==> s[j].path != p,
    ensures
        lookup(s, p) == Some(s[i].node),
    decreases s.len(),
{
    if i == 0 {
    } else {
        lemma_lookup_at(s.drop_first(), p, i - 1);
    }
}

/// If no entry matches, `lookup` reports nothing, and conversely.
pub proof fn lemma_lookup_none(s: Seq<EntryV>, p: Seq<Seq<u8>>)
    ensures
        lookup(s, p) is None <==> forall|j: int| 0 <= j < s.len() ==> s[j].path != p,
    decreases s.len(),
{
    if s.len() > 0 {
        lemma_lookup_none(s.drop_first(), p);
        assert(forall|j: int|
            0 <= j < s.drop_first().len() ==> #[trigger] s.drop_first()[j] == s[j + 1]);
        if s[0].path != p && lookup(s, p) is None {
            assert forall|j: int| 0 <= j < s.len() implies s[j].path != p by {
                if j > 0 {
                    assert(s.drop_first()[j - 1] == s[j]);
                }
            }
        }
        if s[0].path != p && lookup(s, p) is Some {
            let j = choose|j: int|
                0 <= j < s.drop_first().len() && s.drop_first()[j].path == p;
            assert(s[j + 1].path == p);
        }
    }
}

/// A successful `lookup` names the node of some entry for `p`.
pub proof fn lemma_lookup_some(s: Seq<EntryV>, p: Seq<Seq<u8>>)
    requires
        lookup(s, p) is Some,
    ensures
        exists|i: int|
            0 <= i < s.len() && s[i].path == p && s[i].node == lookup(s, p)->Some_0,
    decreases s.len(),
{
    if s.len() > 0 && s[0].path != p {
        lemma_lookup_some(s.drop_first(), p);
        let i = choose|i: int|
            0 <= i < s.drop_first().len() && s.drop_first()[i].path == p && s.drop_first()[i].node
                == lookup(s.drop_first(), p)->Some_0;
        assert(s[i + 1].path == p && s[i + 1].node == lookup(s, p)->Some_0);
    }
}

/// How `lookup` reads an appended entry.
pub proof fn lemma_lookup_push(s: Seq<EntryV>, e: EntryV, p: Seq<Seq<u8>>)
    ensures
        lookup(s.push(e), p) == if lookup(s, p) is Some {
            lookup(s, p)
        } else if e.path == p {
            Some(e.node)
        } else {
            None
        },
    decreases s.len(),
{
    let t = s.push(e);
    if s.len() == 0 {
        assert(t[0] == e);
        assert(t.drop_first() =~= Seq::<EntryV>::empty());
        assert(lookup(t.drop_first(), p) is None);
        assert(lookup(t, p) == if e.path == p {
            Some(e.node)
        } else {
            None
        });
    } else {
        assert(t[0] == s[0]);
        assert(t.drop_first() =~= s.drop_first().push(e));
        lemma_lookup_push(s.drop_first(), e, p);
        assert(lookup(t.drop_first(), p) == lookup(s.drop_first().push(e), p));
        assert(lookup(t, p) == if t[0].path == p {
            Some(t[0].node)
        } else {
            lookup(t.drop_first(), p)
        });
    }
}

/// How `lookup` reads a list with its first entry for `p` removed.
pub proof fn lemma_lookup_remove(s: Seq<EntryV>, p: Seq<Seq<u8>>, q: Seq<Seq<u8>>)
    requires
        distinct_paths(s),
    ensures
        lookup(remove_first(s, p), q) == if q == p {
            None
        } else {
            lookup(s, q)
        },
    decreases s.len(),
{
    if s.len() == 0 {
    } else if s[0].path == p {
        if q == p {
            lemma_lookup_none(s.drop_first(), p);
        }
    } else {
        assert(forall|i: int, j: int|
            0 <= i < j < s.drop_first().len() ==> (#[trigger] s.drop_first()[i].path)
                != (#[trigger] s.drop_first()[j].path)) by {
            assert(forall|i: int|
                0 <= i < s.drop_first().len() ==> s.drop_first()[i] == s[i + 1]);
        }
        lemma_lookup_remove(s.drop_first(), p, q);
        let r = seq![s[0]] + remove_first(s.drop_first(), p);
        assert(r.drop_first() =~= remove_first(s.drop_first(), p));
        assert(r[0] == s[0]);
    }
}

/// `remove_first` keeps every entry whose path is not `p`, in order, and
/// drops exactly one entry when `p` is present.
pub proof fn lemma_remove_entries(s: Seq<EntryV>, p: Seq<Seq<u8>>)
    ensures
        forall|k: int|
            0 <= k < remove_first(s, p).len() ==> exists|i: int|
                0 <= i < s.len() && s[i] == #[trigger] remove_first(s, p)[k],
        remove_first(s, p).len() >= s.len() - 1,
        lookup(s, p) is Some ==> remove_first(s, p).len() == s.len() - 1,
        lookup(s, p) is None ==> remove_first(s, p) == s,
    decreases s.len(),
{
    if s.len() == 0 {
        assert(remove_first(s, p) =~= s);
    } else if s[0].path == p {
        assert(forall|k: int|
            0 <= k < s.drop_first().len() ==> s.drop_first()[k] == s[k + 1]);
    } else {
        lemma_remove_entries(s.drop_first(), p);
        let r = seq![s[0]] + remove_first(s.drop_first(), p);
        assert(r[0] == s[0]);
        assert(forall|k: int| 1 <= k < r.len() ==> r[k] == remove_first(s.drop_first(), p)[k - 1]);
        assert forall|k: int| 0 <= k < r.len() implies exists|i: int|
            0 <= i < s.len() && s[i] == #[trigger] r[k] by {
            if k == 0 {
                assert(s[0] == r[0]);
            } else {
                let i = choose|i: int|
                    0 <= i < s.drop_first().len() && s.drop_first()[i] == remove_first(
                        s.drop_first(),
                        p,
                    )[k - 1];
                assert(s[i + 1] == r[k]);
            }
        }
        if lookup(s, p) is None {
            assert(remove_first(s.drop_first(), p) == s.drop_first());
            assert(r =~= s);
        }
    }
}

/// Appending an entry for an absent path, whose proper prefixes are present
/// directories, preserves well-formedness.
pub proof fn lemma_wf_push(s: Seq<EntryV>, e: EntryV)
    requires
        wf_seq(s),
        lookup(s, e.path) is None,
        e.path.len() > 0,
        forall|l: int| 1 <= l < e.path.len() ==> dir_at(s, #[trigger] e.path.take(l)),
    ensures
        wf_seq(s.push(e)),
    decreases 0int,
{
    let t = s.push(e);
    lemma_lookup_none(s, e.path);
    assert forall|i: int, j: int| 0 <= i < j < t.len() implies (#[trigger] t[i].path)
        != (#[trigger] t[j].path) by {
        if j == s.len() {
            assert(t[i] == s[i]);
        }
    }
    assert forall|i: int, l: int|
        0 <= i < t.len() && 1 <= l < t[i].path.len() implies dir_at(
        t,
        #[trigger] t[i].path.take(l),
    ) by {
        let q = t[i].path.take(l);
        if i < s.len() {
            assert(t[i] == s[i]);
            assert(dir_at(s, s[i].path.take(l)));
            lemma_lookup_push(s, e, q);
        } else {
            assert(t[i] == e);
            assert(dir_at(s, e.path.take(l)));
            lemma_lookup_push(s, e, q);
        }
    }
}

/// Removing a regular-file entry preserves well-formedness: a file is never
/// on another entry's directory chain.
pub proof fn lemma_wf_remove_file(s: Seq<EntryV>, p: Seq<Seq<u8>>)
    requires
        wf_seq(s),
        lookup(s, p) matches Some(FsNode::File(_)),
    ensures
        wf_seq(remove_first(s, p)),
    decreases 0int,
{
    let r = remove_first(s, p);
    lemma_remove_entries(s, p);
    assert forall|i: int, j: int| 0 <= i < j < r.len() implies (#[trigger] r[i].path)
        != (#[trigger] r[j].path) by {
        if r[i].path == r[j].path {
            let a = choose|a: int| 0 <= a < s.len() && s[a] == r[i];
            let b = choose|b: int| 0 <= b < s.len() && s[b] == r[j];
            if a == b {
                lemma_remove_drops_one(s, p, i, j);
            }
        }
    }
    assert forall|i: int| 0 <= i < r.len() implies (#[trigger] r[i].path).len() > 0 by {
        let a = choose|a: int| 0 <= a < s.len() && s[a] == r[i];
    }
    assert forall|i: int, l: int|
        0 <= i < r.len() && 1 <= l < r[i].path.len() implies dir_at(
        r,
        #[trigger] r[i].path.take(l),
    ) by {
        let a = choose|a: int| 0 <= a < s.len() && s[a] == r[i];
        let q = r[i].path.take(l);
        assert(dir_at(s, s[a].path.take(l)));
        lemma_lookup_remove(s, p, q);
        assert(q != p);
    }
}

/// Two positions of `remove_first(s, p)` holding one and the same entry of
/// `s` must be one position: removal drops at most one copy.
#[verifier::rlimit(50)]
proof fn lemma_remove_drops_one(s: Seq<EntryV>, p: Seq<Seq<u8>>, i: int, j: int)
    requires
        distinct_paths(s),
        0 <= i < j < remove_first(s, p).len(),
    ensures
        remove_first(s, p)[i].path != remove_first(s, p)[j].path,
    decreases s.len(),
{
    let r = remove_first(s, p);
    if s.len() == 0 {
    } else if s[0].path == p {
        assert(forall|k: int| 0 <= k < r.len() ==> r[k] == s[k + 1]);
    } else {
        assert(forall|a: int, b: int|
            0 <= a < b < s.drop_first().len() ==> (#[trigger] s.drop_first()[a].path)
                != (#[trigger] s.drop_first()[b].path)) by {
            assert(forall|a: int|
                0 <= a < s.drop_first().len() ==> s.drop_first()[a] == s[a + 1]);
        }
        assert(r[0] == s[0]);
        assert(forall|k: int| 1 <= k < r.len() ==> r[k] == remove_first(s.drop_first(), p)[k - 1]);
        lemma_remove_entries(s.drop_first(), p);
        if i == 0 {
            let a = choose|a: int|
                0 <= a < s.drop_first().len() && s.drop_first()[a] == remove_first(
                    s.drop_first(),
                    p,
                )[j - 1];
            assert(s[a + 1] == r[j]);
        } else {
            lemma_remove_drops_one(s.drop_first(), p, i - 1, j - 1);
        }
    }
}

} // verus!
