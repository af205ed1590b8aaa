//! The tree walker: enumerates every regular file beneath a package root
//! and rebases it, yielding for each file its absolute path and its path
//! relative to the package root.

use vstd::prelude::*;

use crate::fsmodel::{EntryV, Fs, FsNode};
use crate::paths::{clone_name, clone_path, is_strictly_under, pview, strictly_under};

verus! {

/// One link task: a source file and its path relative to the package root.
pub struct Task {
    pub source: Vec<Vec<u8>>,
    pub rel: Vec<Vec<u8>>,
}

/// The specification view of a [`Task`].
pub ghost struct TaskV {
    pub source: Seq<Seq<u8>>,
    pub rel: Seq<Seq<u8>>,
}

impl Task {
    pub open spec fn v(self) -> TaskV {
        TaskV { source: pview(self.source@), rel: pview(self.rel@) }
    }
}

/// The view of a whole task list.
pub open spec fn tasks_view(ts: Seq<Task>) -> Seq<TaskV> {
    Seq::new(ts.len(), |k: int| ts[k].v())
}

/// Is this entry a regular file strictly beneath `prefix`?
pub open spec fn is_task_entry(e: EntryV, prefix: Seq<Seq<u8>>) -> bool {
    e.node matches FsNode::File(_) && strictly_under(prefix, e.path)
}

/// The task an entry yields: its path, rebased by stripping `prefix`.
pub open spec fn task_of_entry(e: EntryV, prefix: Seq<Seq<u8>>) -> TaskV {
    TaskV { source: e.path, rel: e.path.skip(prefix.len() as int) }
}

/// Every task beneath `prefix`, in entry order.
pub open spec fn tasks_of(s: Seq<EntryV>, prefix: Seq<Seq<u8>>) -> Seq<TaskV>
    decreases s.len(),
{
    if s.len() == 0 {
        Seq::empty()
    } else {
        tasks_of(s.drop_last(), prefix) + if is_task_entry(s.last(), prefix) {
            seq![task_of_entry(s.last(), prefix)]
        } else {
            Seq::empty()
        }
    }
}

/// Walks the filesystem beneath `prefix`: yields exactly the regular files
/// strictly beneath it, in entry order, each with its relative path.
pub fn walk_files(fs: &Fs, prefix: &Vec<Vec<u8>>) -> (r: Vec<Task>)
    ensures
        tasks_view(r@) == tasks_of(fs@, pview(prefix@)),
{
    let ghost pv_ = pview(prefix@);
    let mut out: Vec<Task> = Vec::new();
    let mut i: usize = 0;
    while i < fs.entries.len()
        invariant
            i <= fs.entries@.len(),
            tasks_view(out@) == tasks_of(fs@.take(i as int), pv_),
            pv_ == pview(prefix@),
        decreases fs.entries@.len() - i,
    {
        proof {
            assert(fs@[i as int] == fs.entries@[i as int].v());
            assert(fs@.take(i + 1).drop_last() =~= fs@.take(i as int));
            assert(fs@.take(i + 1).last() == fs@[i as int]);
        }
        let e = &fs.entries[i];
        let is_file = match e.node {
            FsNode::File(_) => true,
            _ => false,
        };
        if is_file && is_strictly_under(prefix, &e.path) {
            let source = clone_path(&e.path);
            let mut rel: Vec<Vec<u8>> = Vec::new();
            let mut j: usize = prefix.len();
            while j < e.path.len()
                invariant
                    prefix@.len() <= j <= e.path@.len(),
                    rel@.len() == j - prefix@.len(),
                    forall|k: int|
                        0 <= k < rel@.len() ==> rel@[k]@ == e.path@[prefix@.len() + k]@,
                decreases e.path@.len() - j,
            {
                rel.push(clone_name(&e.path[j]));
                j += 1;
            }
            proof {
                assert(pview(rel@) =~= pview(e.path@).skip(prefix@.len() as int));
            }
            out.push(Task { source, rel });
            proof {
                assert(out@.last().v() == task_of_entry(fs@[i as int], pv_));
                assert(tasks_view(out@) =~= tasks_of(fs@.take(i + 1), pv_));
            }
        } else {
            proof {
                assert(tasks_view(out@) =~= tasks_of(fs@.take(i + 1), pv_));
            }
        }
        i += 1;
    }
    proof {
        assert(fs@.take(fs@.len() as int) =~= fs@);
    }
    out
}

/// Relative-path fidelity: every yielded task's source is exactly the
/// package root followed by its non-empty relative path, so that rebasing
/// the relative path onto any destination root preserves the file's place
/// in the tree.
pub proof fn lemma_relative_path_fidelity(s: Seq<EntryV>, prefix: Seq<Seq<u8>>, k: int)
    requires
        0 <= k < tasks_of(s, prefix).len(),
    ensures
        tasks_of(s, prefix)[k].rel.len() > 0,
        tasks_of(s, prefix)[k].source == prefix + tasks_of(s, prefix)[k].rel,
    decreases s.len(),
{
    let t = tasks_of(s, prefix);
    if s.len() > 0 {
        let t1 = tasks_of(s.drop_last(), prefix);
        if k < t1.len() {
            lemma_relative_path_fidelity(s.drop_last(), prefix, k);
        } else {
            let e = s.last();
            assert(is_task_entry(e, prefix));
            assert(t[k] == task_of_entry(e, prefix));
            assert(e.path.take(prefix.len() as int) == prefix);
            assert(e.path =~= e.path.take(prefix.len() as int) + e.path.skip(
                prefix.len() as int,
            ));
        }
    }
}

/// The walk is sound: every task comes from a regular-file entry strictly
/// beneath the prefix.
pub proof fn lemma_tasks_sound(s: Seq<EntryV>, prefix: Seq<Seq<u8>>, k: int)
    requires
        0 <= k < tasks_of(s, prefix).len(),
    ensures
        exists|i: int|
            0 <= i < s.len() && is_task_entry(#[trigger] s[i], prefix) && tasks_of(s, prefix)[k]
                == task_of_entry(s[i], prefix),
    decreases s.len(),
{
    let t = tasks_of(s, prefix);
    if s.len() > 0 {
        let t1 = tasks_of(s.drop_last(), prefix);
        if k < t1.len() {
            lemma_tasks_sound(s.drop_last(), prefix, k);
            let i = choose|i: int|
                0 <= i < s.drop_last().len() && is_task_entry(#[trigger] s.drop_last()[i], prefix)
                    && t1[k] == task_of_entry(s.drop_last()[i], prefix);
            assert(s[i] == s.drop_last()[i]);
        } else {
            assert(s[s.len() - 1] == s.last());
        }
    }
}

/// The walk is complete: every regular-file entry strictly beneath the
/// prefix yields a task.
pub proof fn lemma_tasks_complete(s: Seq<EntryV>, prefix: Seq<Seq<u8>>, i: int)
    requires
        0 <= i < s.len(),
        is_task_entry(s[i], prefix),
    ensures
        exists|k: int|
            0 <= k < tasks_of(s, prefix).len() && tasks_of(s, prefix)[k] == task_of_entry(
                s[i],
                prefix,
            ),
    decreases s.len(),
{
    let t = tasks_of(s, prefix);
    if i == s.len() - 1 {
        assert(s.last() == s[i]);
        assert(t[t.len() - 1] == task_of_entry(s[i], prefix));
    } else {
        assert(s.drop_last()[i] == s[i]);
        lemma_tasks_complete(s.drop_last(), prefix, i);
        let k = choose|k: int|
            0 <= k < tasks_of(s.drop_last(), prefix).len() && tasks_of(s.drop_last(), prefix)[k]
                == task_of_entry(s.drop_last()[i], prefix);
        assert(t[k] == task_of_entry(s[i], prefix));
    }
}

} // verus!
