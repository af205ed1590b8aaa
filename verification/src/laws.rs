//! The engine's laws, proved over the specification model of the link
//! operation ([`link_result`], [`link_fs`]) and of directory
//! materialization ([`ensure_dirs`]).

use vstd::prelude::*;

use crate::engine::{
    already_linked, blocked, conflict_overwrites, ensure_dirs, file_id, link_fs, link_overwrote,
    link_result, missing_prefix, parent_of, EngineError, LinkOutcome,
};
use crate::engine::{Prompter, SettingsV, StatsV};
use crate::fsmodel::{
    dir_at, lemma_lookup_push, lemma_lookup_remove, lemma_lookup_some, lemma_wf_push,
    lemma_wf_remove_file, lookup, remove_first, wf_seq, EntryV, FsNode,
};
use crate::run::{choice_prefix, dest_path, process_choice_spec, run_tasks};
use crate::walk::{lemma_relative_path_fidelity, lemma_tasks_sound, tasks_of, TaskV};

verus! {

/// A path resolvable as a directory has no regular file on its chain.
pub proof fn lemma_present_dir_not_blocked(s: Seq<EntryV>, p: Seq<Seq<u8>>)
    requires
        wf_seq(s),
        dir_at(s, p),
    ensures
        !blocked(s, p),
{
    if blocked(s, p) {
        let l = choose|l: int|
            1 <= l <= p.len() && lookup(s, #[trigger] p.take(l)) matches Some(FsNode::File(_));
        assert(p.take(p.len() as int) =~= p);
        if l < p.len() {
            lemma_lookup_some(s, p);
            let i = choose|i: int|
                0 <= i < s.len() && s[i].path == p && s[i].node == lookup(s, p)->Some_0;
            assert(dir_at(s, s[i].path.take(l)));
        }
    }
}

/// Idempotence of the link operation: after any successful link task, the
/// same task performed again changes nothing — it reports the destination
/// as already linked (or, for a skipped conflict, skips it again), never
/// links or overwrites, and leaves the filesystem exactly as it was.
pub proof fn lemma_link_idempotent(
    s: Seq<EntryV>,
    src: Seq<Seq<u8>>,
    dest: Seq<Seq<u8>>,
    force: bool,
    interactive: bool,
    confirmed: bool,
    mode: u32,
)
    requires
        wf_seq(s),
        dest.len() > 0,
        lookup(s, src) matches Some(FsNode::File(_)),
        link_result(s, src, dest, force, interactive, confirmed) is Ok,
    ensures
        ({
            let s1 = link_fs(s, src, dest, force, interactive, confirmed, mode);
            let r1 = link_result(s, src, dest, force, interactive, confirmed);
            let r2 = link_result(s1, src, dest, force, interactive, confirmed);
            &&& link_fs(s1, src, dest, force, interactive, confirmed, mode) == s1
            &&& !link_overwrote(s1, src, dest, force, interactive, confirmed)
            &&& (r1 == Ok::<LinkOutcome, EngineError>(LinkOutcome::SkippedConflict) ==> r2 == r1)
            &&& (r1 != Ok::<LinkOutcome, EngineError>(LinkOutcome::SkippedConflict) ==> r2
                == Ok::<LinkOutcome, EngineError>(LinkOutcome::AlreadyLinked))
        }),
{
    let s1 = link_fs(s, src, dest, force, interactive, confirmed, mode);
    let r1 = link_result(s, src, dest, force, interactive, confirmed);
    let id = file_id(s, src);
    if r1 == Ok::<LinkOutcome, EngineError>(LinkOutcome::AlreadyLinked) || r1
        == Ok::<LinkOutcome, EngineError>(LinkOutcome::SkippedConflict) {
        assert(s1 == s);
    } else if r1 == Ok::<LinkOutcome, EngineError>(LinkOutcome::Linked) {
        let parent = parent_of(dest);
        assert(src != dest);
        assert(!blocked(s, parent)) by {
            if parent.len() > 0 && lookup(s, parent) is Some {
                lemma_present_dir_not_blocked(s, parent);
            }
        }
        crate::engine::lemma_ensure_dirs(s, parent, mode);
        let r_mid = ensure_dirs(s, parent, mode);
        let e = EntryV { path: dest, node: FsNode::File(id) };
        assert(s1 == r_mid.push(e));
        assert(!missing_prefix(s, parent, src));
        assert(lookup(r_mid, src) == lookup(s, src));
        assert(!missing_prefix(s, parent, dest)) by {
            if exists|l: int| 1 <= l <= parent.len() && dest == parent.take(l) {
                let l = choose|l: int| 1 <= l <= parent.len() && dest == parent.take(l);
                assert(dest.len() == l);
            }
        }
        lemma_lookup_push(r_mid, e, src);
        lemma_lookup_push(r_mid, e, dest);
        assert(lookup(s1, dest) == Some(FsNode::File(id)));
        assert(lookup(s1, src) == Some(FsNode::File(id)));
        assert(already_linked(s1, src, dest));
    } else {
        assert(r1 == Ok::<LinkOutcome, EngineError>(LinkOutcome::Overwritten));
        assert(src != dest) by {
            if src == dest {
                assert(already_linked(s, src, dest));
            }
        }
        let rm = remove_first(s, dest);
        let e = EntryV { path: dest, node: FsNode::File(id) };
        assert(s1 == rm.push(e));
        lemma_lookup_remove(s, dest, src);
        lemma_lookup_remove(s, dest, dest);
        lemma_lookup_push(rm, e, src);
        lemma_lookup_push(rm, e, dest);
        assert(lookup(s1, dest) == Some(FsNode::File(id)));
        assert(lookup(s1, src) == Some(FsNode::File(id)));
        assert(already_linked(s1, src, dest));
    }
}

/// What one successful link task does to the filesystem, at the
/// specification level: well-formedness is preserved, every other present
/// path is left alone, and a task that linked or overwrote leaves the
/// destination naming the source's file.
pub proof fn lemma_link_step(
    s: Seq<EntryV>,
    src: Seq<Seq<u8>>,
    dest: Seq<Seq<u8>>,
    force: bool,
    interactive: bool,
    confirmed: bool,
    mode: u32,
)
    requires
        wf_seq(s),
        dest.len() > 0,
        link_result(s, src, dest, force, interactive, confirmed) is Ok,
    ensures
        wf_seq(link_fs(s, src, dest, force, interactive, confirmed, mode)),
        forall|x: Seq<Seq<u8>>|
            lookup(s, x) is Some && x != dest ==> #[trigger] lookup(
                link_fs(s, src, dest, force, interactive, confirmed, mode),
                x,
            ) == lookup(s, x),
        link_result(s, src, dest, force, interactive, confirmed)
            == Ok::<LinkOutcome, EngineError>(LinkOutcome::Linked) || link_result(
            s,
            src,
            dest,
            force,
            interactive,
            confirmed,
        ) == Ok::<LinkOutcome, EngineError>(LinkOutcome::Overwritten) ==> lookup(
            link_fs(s, src, dest, force, interactive, confirmed, mode),
            dest,
        ) == lookup(s, src),
{
    let r = link_result(s, src, dest, force, interactive, confirmed);
    let s1 = link_fs(s, src, dest, force, interactive, confirmed, mode);
    let id = file_id(s, src);
    if r == Ok::<LinkOutcome, EngineError>(LinkOutcome::Linked) {
        let parent = parent_of(dest);
        assert(!blocked(s, parent)) by {
            if parent.len() > 0 && lookup(s, parent) is Some {
                lemma_present_dir_not_blocked(s, parent);
            }
        }
        crate::engine::lemma_ensure_dirs(s, parent, mode);
        let r_mid = ensure_dirs(s, parent, mode);
        let e = EntryV { path: dest, node: FsNode::File(id) };
        assert(s1 == r_mid.push(e));
        assert(!missing_prefix(s, parent, dest)) by {
            if exists|l: int| 1 <= l <= parent.len() && dest == parent.take(l) {
                let l = choose|l: int| 1 <= l <= parent.len() && dest == parent.take(l);
                assert(dest.len() == l);
            }
        }
        assert(lookup(r_mid, dest) is None);
        assert forall|l: int| 1 <= l < dest.len() implies dir_at(
            r_mid,
            #[trigger] dest.take(l),
        ) by {
            let t = dest.take(l);
            assert(t =~= parent.take(l));
            if l == parent.len() {
                assert(t =~= parent);
            } else if lookup(s, t) is None {
                assert(missing_prefix(s, parent, t));
            } else {
                assert(!(lookup(s, t) matches Some(FsNode::File(_)))) by {
                    if lookup(s, parent.take(l)) matches Some(FsNode::File(_)) {
                        assert(blocked(s, parent));
                    }
                }
            }
        }
        lemma_wf_push(r_mid, e);
        assert forall|x: Seq<Seq<u8>>| lookup(s, x) is Some && x != dest implies #[trigger] lookup(
            s1,
            x,
        ) == lookup(s, x) by {
            lemma_lookup_push(r_mid, e, x);
            assert(!missing_prefix(s, parent, x));
        }
        lemma_lookup_push(r_mid, e, dest);
        assert(lookup(s1, dest) == Some(FsNode::File(id)));
    } else if r == Ok::<LinkOutcome, EngineError>(LinkOutcome::Overwritten) {
        assert(src != dest) by {
            if src == dest {
                assert(already_linked(s, src, dest));
            }
        }
        lemma_wf_remove_file(s, dest);
        let rm = remove_first(s, dest);
        let e = EntryV { path: dest, node: FsNode::File(id) };
        assert(s1 == rm.push(e));
        lemma_lookup_remove(s, dest, dest);
        lemma_lookup_some(s, dest);
        let di = choose|di: int|
            0 <= di < s.len() && s[di].path == dest && s[di].node == lookup(s, dest)->Some_0;
        assert forall|l: int| 1 <= l < dest.len() implies dir_at(rm, #[trigger] dest.take(l)) by {
            assert(dir_at(s, s[di].path.take(l)));
            lemma_lookup_remove(s, dest, dest.take(l));
            assert(dest.take(l).len() < dest.len());
        }
        lemma_wf_push(rm, e);
        assert forall|x: Seq<Seq<u8>>| lookup(s, x) is Some && x != dest implies #[trigger] lookup(
            s1,
            x,
        ) == lookup(s, x) by {
            lemma_lookup_remove(s, dest, x);
            lemma_lookup_push(rm, e, x);
        }
        lemma_lookup_push(rm, e, dest);
        assert(lookup(s1, dest) == Some(FsNode::File(id)));
    } else {
        assert(s1 == s);
    }
}

/// The conflict-policy table: for a destination file that exists and is not
/// the source's file, the four policy combinations do exactly this — no
/// flag: skip, untouched; force: overwrite and relink; interactive with the
/// confirmation declined: skip, untouched; interactive with it confirmed:
/// overwrite and relink.  After an overwrite the destination names the
/// source's file and the source itself is untouched.
pub proof fn lemma_conflict_policy(
    s: Seq<EntryV>,
    src: Seq<Seq<u8>>,
    dest: Seq<Seq<u8>>,
    force: bool,
    interactive: bool,
    confirmed: bool,
    mode: u32,
)
    requires
        wf_seq(s),
        dest.len() > 0,
        lookup(s, src) matches Some(FsNode::File(_)),
        lookup(s, dest) matches Some(FsNode::File(_)),
        file_id(s, dest) != file_id(s, src),
    ensures
        !force && !interactive ==> link_result(s, src, dest, force, interactive, confirmed)
            == Ok::<LinkOutcome, EngineError>(LinkOutcome::SkippedConflict) && link_fs(
            s,
            src,
            dest,
            force,
            interactive,
            confirmed,
            mode,
        ) == s,
        !force && interactive && !confirmed ==> link_result(
            s,
            src,
            dest,
            force,
            interactive,
            confirmed,
        ) == Ok::<LinkOutcome, EngineError>(LinkOutcome::SkippedConflict) && link_fs(
            s,
            src,
            dest,
            force,
            interactive,
            confirmed,
            mode,
        ) == s,
        conflict_overwrites(force, interactive, confirmed) ==> link_result(
            s,
            src,
            dest,
            force,
            interactive,
            confirmed,
        ) == Ok::<LinkOutcome, EngineError>(LinkOutcome::Overwritten) && lookup(
            link_fs(s, src, dest, force, interactive, confirmed, mode),
            dest,
        ) == Some(FsNode::File(file_id(s, src))) && lookup(
            link_fs(s, src, dest, force, interactive, confirmed, mode),
            src,
        ) == lookup(s, src),
{
    assert(!already_linked(s, src, dest));
    assert(src != dest);
    if conflict_overwrites(force, interactive, confirmed) {
        let id = file_id(s, src);
        let rm = remove_first(s, dest);
        let e = EntryV { path: dest, node: FsNode::File(id) };
        lemma_lookup_remove(s, dest, src);
        lemma_lookup_remove(s, dest, dest);
        lemma_lookup_push(rm, e, src);
        lemma_lookup_push(rm, e, dest);
    }
}

/// A task is settled: its destination already names its source's file, or
/// it is a conflict that the policy will skip again.
pub open spec fn settled(s: Seq<EntryV>, t: TaskV, sv: SettingsV, pr: Prompter) -> bool {
    let d = dest_path(sv.to, t.rel);
    ||| already_linked(s, t.source, d)
    ||| (lookup(s, d) is Some && (lookup(s, t.source) matches Some(FsNode::File(_)))
        && !conflict_overwrites(sv.force, sv.interactive, pr.says_yes(d)))
}

/// Is `x` none of the task list's destinations?
pub open spec fn not_a_dest(x: Seq<Seq<u8>>, tasks: Seq<TaskV>, sv: SettingsV) -> bool {
    forall|i: int| 0 <= i < tasks.len() ==> x != dest_path(sv.to, (#[trigger] tasks[i]).rel)
}

/// A well-behaved batch of link tasks: relative paths non-empty, sources
/// present as regular files, destinations pairwise distinct and distinct
/// from every source.  A walk of a package whose destinations land outside
/// the source tree yields such a batch.
pub open spec fn independent_tasks(s: Seq<EntryV>, tasks: Seq<TaskV>, sv: SettingsV) -> bool {
    &&& forall|i: int| 0 <= i < tasks.len() ==> (#[trigger] tasks[i]).rel.len() > 0
    &&& forall|i: int|
        0 <= i < tasks.len() ==> (lookup(s, (#[trigger] tasks[i]).source) matches Some(
            FsNode::File(_),
        ))
    &&& forall|i: int, j: int|
        0 <= i < j < tasks.len() ==> dest_path(sv.to, (#[trigger] tasks[i]).rel) != dest_path(
            sv.to,
            (#[trigger] tasks[j]).rel,
        )
    &&& forall|i: int, j: int|
        0 <= i < tasks.len() && 0 <= j < tasks.len() ==> dest_path(
            sv.to,
            (#[trigger] tasks[i]).rel,
        ) != (#[trigger] tasks[j]).source
}

/// After a successful fold of an independent batch, every task is settled,
/// the state is well-formed, and every present path that is no task's
/// destination is untouched.
proof fn lemma_run_tasks_settles(
    s: Seq<EntryV>,
    tasks: Seq<TaskV>,
    st: StatsV,
    sv: SettingsV,
    pr: Prompter,
)
    requires
        wf_seq(s),
        independent_tasks(s, tasks, sv),
        run_tasks(s, tasks, st, sv, pr).2 is None,
    ensures
        wf_seq(run_tasks(s, tasks, st, sv, pr).0),
        forall|i: int|
            0 <= i < tasks.len() ==> settled(
                run_tasks(s, tasks, st, sv, pr).0,
                #[trigger] tasks[i],
                sv,
                pr,
            ),
        forall|x: Seq<Seq<u8>>|
            lookup(s, x) is Some && not_a_dest(x, tasks, sv) ==> #[trigger] lookup(
                run_tasks(s, tasks, st, sv, pr).0,
                x,
            ) == lookup(s, x),
    decreases tasks.len(),
{
    let post = run_tasks(s, tasks, st, sv, pr).0;
    if tasks.len() > 0 {
        let t0 = tasks[0];
        let d0 = dest_path(sv.to, t0.rel);
        let conf = pr.says_yes(d0);
        let r0 = link_result(s, t0.source, d0, sv.force, sv.interactive, conf);
        let s1 = link_fs(s, t0.source, d0, sv.force, sv.interactive, conf, sv.directory_mode);
        let st1 = crate::engine::stats_next(
            st,
            r0,
            link_overwrote(s, t0.source, d0, sv.force, sv.interactive, conf),
        );
        let rest = tasks.drop_first();
        assert(r0 is Ok);
        assert(d0.len() > 0);
        assert(t0.source != d0) by {
            if t0.source == d0 && !already_linked(s, t0.source, d0) {
                assert(lookup(s, t0.source) matches Some(FsNode::File(_)));
            }
        }
        lemma_link_step(s, t0.source, d0, sv.force, sv.interactive, conf, sv.directory_mode);
        assert(forall|i: int| 0 <= i < rest.len() ==> #[trigger] rest[i] == tasks[i + 1]);
        assert(independent_tasks(s1, rest, sv)) by {
            assert forall|i: int| 0 <= i < rest.len() implies lookup(
                s1,
                (#[trigger] rest[i]).source,
            ) matches Some(FsNode::File(_)) by {
                assert(rest[i] == tasks[i + 1]);
                assert(d0 != tasks[i + 1].source);
                assert(lookup(s1, tasks[i + 1].source) == lookup(s, tasks[i + 1].source));
            }
        }
        lemma_run_tasks_settles(s1, rest, st1, sv, pr);
        assert(post == run_tasks(s1, rest, st1, sv, pr).0);

        // every present path off the destinations is untouched
        assert forall|x: Seq<Seq<u8>>|
            lookup(s, x) is Some && not_a_dest(x, tasks, sv) implies #[trigger] lookup(post, x)
            == lookup(s, x) by {
            assert(x != d0);
            assert(lookup(s1, x) == lookup(s, x));
            assert(not_a_dest(x, rest, sv)) by {
                assert forall|i: int|
                    0 <= i < rest.len() implies x != dest_path(
                    sv.to,
                    (#[trigger] rest[i]).rel,
                ) by {
                    assert(rest[i] == tasks[i + 1]);
                }
            }
        }

        // the head task is settled in the final state
        assert(settled(post, t0, sv, pr)) by {
            assert(not_a_dest(d0, rest, sv)) by {
                assert forall|i: int|
                    0 <= i < rest.len() implies d0 != dest_path(
                    sv.to,
                    (#[trigger] rest[i]).rel,
                ) by {
                    assert(rest[i] == tasks[i + 1]);
                }
            }
            assert(not_a_dest(t0.source, rest, sv)) by {
                assert forall|i: int|
                    0 <= i < rest.len() implies t0.source != dest_path(
                    sv.to,
                    (#[trigger] rest[i]).rel,
                ) by {
                    assert(rest[i] == tasks[i + 1]);
                }
            }
            if r0 == Ok::<LinkOutcome, EngineError>(LinkOutcome::Linked) || r0
                == Ok::<LinkOutcome, EngineError>(LinkOutcome::Overwritten) {
                assert(lookup(s1, d0) == lookup(s, t0.source));
                assert(lookup(s1, t0.source) == lookup(s, t0.source));
                assert(already_linked(s1, t0.source, d0));
                assert(lookup(post, d0) == lookup(s1, d0));
                assert(lookup(post, t0.source) == lookup(s1, t0.source));
            } else if r0 == Ok::<LinkOutcome, EngineError>(LinkOutcome::AlreadyLinked) {
                assert(s1 == s);
                assert(lookup(post, d0) == lookup(s1, d0));
                assert(lookup(post, t0.source) == lookup(s1, t0.source));
            } else {
                assert(r0 == Ok::<LinkOutcome, EngineError>(LinkOutcome::SkippedConflict));
                assert(s1 == s);
                assert(lookup(post, d0) == lookup(s1, d0));
                assert(lookup(post, t0.source) == lookup(s1, t0.source));
            }
        }

        // the remaining tasks are settled by the recursion
        assert forall|i: int| 0 <= i < tasks.len() implies settled(
            post,
            #[trigger] tasks[i],
            sv,
            pr,
        ) by {
            if i > 0 {
                assert(tasks[i] == rest[i - 1]);
                assert(settled(post, rest[i - 1], sv, pr));
            }
        }
    }
}

/// Distinct entries yield tasks with distinct sources.
proof fn lemma_tasks_sources_distinct(s: Seq<EntryV>, prefix: Seq<Seq<u8>>, i: int, j: int)
    requires
        crate::fsmodel::distinct_paths(s),
        0 <= i < j < tasks_of(s, prefix).len(),
    ensures
        tasks_of(s, prefix)[i].source != tasks_of(s, prefix)[j].source,
    decreases s.len(),
{
    let t = tasks_of(s, prefix);
    let t1 = tasks_of(s.drop_last(), prefix);
    assert(forall|b: int| 0 <= b < s.drop_last().len() ==> #[trigger] s.drop_last()[b] == s[b]);
    if j < t1.len() {
        lemma_tasks_sources_distinct(s.drop_last(), prefix, i, j);
    } else {
        assert(t[j] == crate::walk::task_of_entry(s.last(), prefix));
        lemma_tasks_sound(s.drop_last(), prefix, i);
        assert(t[i] == t1[i]);
        let a = choose|a: int|
            0 <= a < s.drop_last().len() && crate::walk::is_task_entry(
                #[trigger] s.drop_last()[a],
                prefix,
            ) && t1[i] == crate::walk::task_of_entry(s.drop_last()[a], prefix);
        assert(s[a].path != s[s.len() - 1].path);
    }
}

/// A walked package is an independent batch whenever the destination root
/// and the package root differ at some component: relative paths are
/// non-empty, sources are the package's regular files, and no two tasks
/// share a destination, nor a destination with a source.
pub proof fn lemma_walk_tasks_independent(
    s: Seq<EntryV>,
    prefix: Seq<Seq<u8>>,
    sv: SettingsV,
    k: int,
)
    requires
        wf_seq(s),
        0 <= k < sv.to.len(),
        k < prefix.len(),
        sv.to[k] != prefix[k],
    ensures
        independent_tasks(s, tasks_of(s, prefix), sv),
{
    let ts = tasks_of(s, prefix);
    assert forall|i: int| 0 <= i < ts.len() implies (#[trigger] ts[i]).rel.len() > 0 by {
        lemma_relative_path_fidelity(s, prefix, i);
    }
    assert forall|i: int| 0 <= i < ts.len() implies (lookup(
        s,
        (#[trigger] ts[i]).source,
    ) matches Some(FsNode::File(_))) by {
        lemma_tasks_sound(s, prefix, i);
        let a = choose|a: int|
            0 <= a < s.len() && crate::walk::is_task_entry(#[trigger] s[a], prefix) && ts[i]
                == crate::walk::task_of_entry(s[a], prefix);
        assert(forall|b: int| 0 <= b < a ==> s[b].path != s[a].path);
        crate::fsmodel::lemma_lookup_at(s, s[a].path, a);
    }
    assert forall|i: int, j: int| 0 <= i < j < ts.len() implies dest_path(
        sv.to,
        (#[trigger] ts[i]).rel,
    ) != dest_path(sv.to, (#[trigger] ts[j]).rel) by {
        lemma_tasks_sources_distinct(s, prefix, i, j);
        lemma_relative_path_fidelity(s, prefix, i);
        lemma_relative_path_fidelity(s, prefix, j);
        if dest_path(sv.to, ts[i].rel) == dest_path(sv.to, ts[j].rel) {
            assert(ts[i].rel =~= dest_path(sv.to, ts[i].rel).skip(sv.to.len() as int));
            assert(ts[j].rel =~= dest_path(sv.to, ts[j].rel).skip(sv.to.len() as int));
            assert(ts[i].source == prefix + ts[i].rel);
        }
    }
    assert forall|i: int, j: int| 0 <= i < ts.len() && 0 <= j < ts.len() implies dest_path(
        sv.to,
        (#[trigger] ts[i]).rel,
    ) != (#[trigger] ts[j]).source by {
        lemma_relative_path_fidelity(s, prefix, i);
        lemma_relative_path_fidelity(s, prefix, j);
        assert(dest_path(sv.to, ts[i].rel)[k] == sv.to[k]);
        assert((prefix + ts[j].rel)[k] == prefix[k]);
    }
}

/// The given counters with `n` more tasks skipped and nothing else changed.
pub open spec fn skipped_all(st: StatsV, n: nat) -> StatsV {
    StatsV { linked: st.linked, skipped: st.skipped + n, overwritten: st.overwritten }
}

/// Folding the link operation over settled tasks does nothing: every task
/// reports already-linked or skips its conflict again, the filesystem does
/// not change, and nothing is linked or overwritten.
proof fn lemma_settled_fold(
    s: Seq<EntryV>,
    tasks: Seq<TaskV>,
    st2: StatsV,
    sv: SettingsV,
    pr: Prompter,
)
    requires
        forall|i: int| 0 <= i < tasks.len() ==> settled(s, #[trigger] tasks[i], sv, pr),
    ensures
        run_tasks(s, tasks, st2, sv, pr) == (
            s,
            skipped_all(st2, tasks.len()),
            Option::<EngineError>::None,
        ),
    decreases tasks.len(),
{
    if tasks.len() == 0 {
        assert(skipped_all(st2, 0) == st2);
    } else {
        let t0 = tasks[0];
        let d0 = dest_path(sv.to, t0.rel);
        let conf = pr.says_yes(d0);
        let r0 = link_result(s, t0.source, d0, sv.force, sv.interactive, conf);
        assert(settled(s, t0, sv, pr));
        assert(r0 == Ok::<LinkOutcome, EngineError>(LinkOutcome::AlreadyLinked) || r0
            == Ok::<LinkOutcome, EngineError>(LinkOutcome::SkippedConflict));
        assert(link_fs(s, t0.source, d0, sv.force, sv.interactive, conf, sv.directory_mode) == s);
        assert(!link_overwrote(s, t0.source, d0, sv.force, sv.interactive, conf));
        let rest = tasks.drop_first();
        assert(forall|i: int| 0 <= i < rest.len() ==> #[trigger] rest[i] == tasks[i + 1]);
        let st3 = crate::engine::stats_next(st2, r0, false);
        lemma_settled_fold(s, rest, st3, sv, pr);
        assert(skipped_all(st3, rest.len()) == skipped_all(st2, tasks.len()));
    }
}

/// The walk can be read off the front of the entry list as well.
proof fn lemma_tasks_front(s: Seq<EntryV>, prefix: Seq<Seq<u8>>)
    requires
        s.len() > 0,
    ensures
        tasks_of(s, prefix) == (if crate::walk::is_task_entry(s[0], prefix) {
            seq![crate::walk::task_of_entry(s[0], prefix)]
        } else {
            Seq::<TaskV>::empty()
        }) + tasks_of(s.drop_first(), prefix),
    decreases s.len(),
{
    let c0 = if crate::walk::is_task_entry(s[0], prefix) {
        seq![crate::walk::task_of_entry(s[0], prefix)]
    } else {
        Seq::<TaskV>::empty()
    };
    if s.len() == 1 {
        assert(s.drop_last() =~= Seq::<EntryV>::empty());
        assert(s.drop_first() =~= Seq::<EntryV>::empty());
        assert(s.last() == s[0]);
        assert(tasks_of(s, prefix) =~= c0 + tasks_of(s.drop_first(), prefix));
    } else {
        lemma_tasks_front(s.drop_last(), prefix);
        assert(s.drop_last()[0] == s[0]);
        assert(s.drop_last().drop_first() =~= s.drop_first().drop_last());
        assert(s.drop_first().last() == s.last());
        assert(s.drop_first().len() > 0);
        assert(tasks_of(s, prefix) =~= c0 + tasks_of(s.drop_first(), prefix));
    }
}

/// Appending an entry that the walk would not yield leaves it unchanged.
proof fn lemma_tasks_push(s: Seq<EntryV>, e: EntryV, prefix: Seq<Seq<u8>>)
    requires
        !crate::walk::is_task_entry(e, prefix),
    ensures
        tasks_of(s.push(e), prefix) == tasks_of(s, prefix),
{
    assert(s.push(e).drop_last() =~= s);
    assert(s.push(e).last() == e);
    assert(tasks_of(s.push(e), prefix) =~= tasks_of(s, prefix));
}

/// Removing an entry outside the walked subtree leaves the walk unchanged.
proof fn lemma_tasks_remove(s: Seq<EntryV>, p: Seq<Seq<u8>>, prefix: Seq<Seq<u8>>)
    requires
        !crate::paths::strictly_under(prefix, p),
    ensures
        tasks_of(remove_first(s, p), prefix) == tasks_of(s, prefix),
    decreases s.len(),
{
    if s.len() == 0 {
    } else if s[0].path == p {
        lemma_tasks_front(s, prefix);
        assert(Seq::<TaskV>::empty() + tasks_of(s.drop_first(), prefix) =~= tasks_of(
            s.drop_first(),
            prefix,
        ));
    } else {
        lemma_tasks_remove(s.drop_first(), p, prefix);
        let r = seq![s[0]] + remove_first(s.drop_first(), p);
        assert(r[0] == s[0]);
        assert(r.drop_first() =~= remove_first(s.drop_first(), p));
        if r.len() > 0 {
            lemma_tasks_front(r, prefix);
        }
        lemma_tasks_front(s, prefix);
    }
}

/// Materializing directories leaves the walk unchanged: it adds no regular
/// files.
proof fn lemma_tasks_ensure_dirs(
    s: Seq<EntryV>,
    p: Seq<Seq<u8>>,
    mode: u32,
    prefix: Seq<Seq<u8>>,
)
    ensures
        tasks_of(ensure_dirs(s, p, mode), prefix) == tasks_of(s, prefix),
    decreases p.len(),
{
    if p.len() == 0 || lookup(s, p) is Some {
    } else {
        lemma_tasks_ensure_dirs(s, p.drop_last(), mode, prefix);
        lemma_tasks_push(
            ensure_dirs(s, p.drop_last(), mode),
            EntryV { path: p, node: FsNode::Dir(mode) },
            prefix,
        );
    }
}

/// A successful fold whose destinations stay outside the walked subtree
/// leaves that subtree's walk unchanged.
proof fn lemma_fold_preserves_tasks(
    s: Seq<EntryV>,
    tasks: Seq<TaskV>,
    st: StatsV,
    sv: SettingsV,
    pr: Prompter,
    prefix: Seq<Seq<u8>>,
)
    requires
        run_tasks(s, tasks, st, sv, pr).2 is None,
        forall|i: int|
            0 <= i < tasks.len() ==> !crate::paths::strictly_under(
                prefix,
                dest_path(sv.to, (#[trigger] tasks[i]).rel),
            ),
    ensures
        tasks_of(run_tasks(s, tasks, st, sv, pr).0, prefix) == tasks_of(s, prefix),
    decreases tasks.len(),
{
    if tasks.len() > 0 {
        let t0 = tasks[0];
        let d0 = dest_path(sv.to, t0.rel);
        let conf = pr.says_yes(d0);
        let r0 = link_result(s, t0.source, d0, sv.force, sv.interactive, conf);
        let s1 = link_fs(s, t0.source, d0, sv.force, sv.interactive, conf, sv.directory_mode);
        let st1 = crate::engine::stats_next(
            st,
            r0,
            link_overwrote(s, t0.source, d0, sv.force, sv.interactive, conf),
        );
        assert(r0 is Ok);
        assert(!crate::paths::strictly_under(prefix, d0));
        if r0 == Ok::<LinkOutcome, EngineError>(LinkOutcome::Linked) {
            lemma_tasks_ensure_dirs(s, parent_of(d0), sv.directory_mode, prefix);
            lemma_tasks_push(
                ensure_dirs(s, parent_of(d0), sv.directory_mode),
                EntryV { path: d0, node: FsNode::File(file_id(s, t0.source)) },
                prefix,
            );
        } else if r0 == Ok::<LinkOutcome, EngineError>(LinkOutcome::Overwritten) {
            lemma_tasks_remove(s, d0, prefix);
            lemma_tasks_push(
                remove_first(s, d0),
                EntryV { path: d0, node: FsNode::File(file_id(s, t0.source)) },
                prefix,
            );
        }
        assert(tasks_of(s1, prefix) == tasks_of(s, prefix));
        let rest = tasks.drop_first();
        assert(forall|i: int| 0 <= i < rest.len() ==> #[trigger] rest[i] == tasks[i + 1]);
        lemma_fold_preserves_tasks(s1, rest, st1, sv, pr, prefix);
    }
}

/// Idempotence of a whole package: once one choice has been processed
/// successfully, processing the very same choice again — same settings,
/// same confirmation capability — changes nothing: the filesystem stays as
/// it was and nothing is linked or overwritten.  The destination root must
/// differ from the source root at some component, so that the links land
/// outside the walked tree.
pub proof fn lemma_process_choice_idempotent(
    s: Seq<EntryV>,
    choice: Seq<u8>,
    st: StatsV,
    st2: StatsV,
    sv: SettingsV,
    pr: Prompter,
    k: int,
)
    requires
        wf_seq(s),
        0 <= k < sv.to.len(),
        k < sv.from.len(),
        sv.to[k] != sv.from[k],
        process_choice_spec(s, choice, st, sv, pr).2 is None,
    ensures
        ({
            let post = process_choice_spec(s, choice, st, sv, pr).0;
            let again = process_choice_spec(post, choice, st2, sv, pr);
            &&& again.0 == post
            &&& again.2 is None
            &&& again.1.linked == st2.linked
            &&& again.1.overwritten == st2.overwritten
        }),
{
    let prefix = choice_prefix(sv, choice);
    let post = process_choice_spec(s, choice, st, sv, pr).0;
    assert(prefix[k] == sv.from[k]);
    if lookup(s, prefix) matches Some(FsNode::Dir(_)) {
        let tasks = tasks_of(s, prefix);
        lemma_walk_tasks_independent(s, prefix, sv, k);
        lemma_run_tasks_settles(s, tasks, st, sv, pr);
        assert forall|i: int|
            0 <= i < tasks.len() implies !crate::paths::strictly_under(
            prefix,
            dest_path(sv.to, (#[trigger] tasks[i]).rel),
        ) by {
            let d = dest_path(sv.to, tasks[i].rel);
            assert(d[k] == sv.to[k]);
            if crate::paths::strictly_under(prefix, d) {
                assert(d.take(prefix.len() as int)[k] == prefix[k]);
            }
        }
        assert(not_a_dest(prefix, tasks, sv)) by {
            assert forall|i: int|
                0 <= i < tasks.len() implies prefix != dest_path(
                sv.to,
                (#[trigger] tasks[i]).rel,
            ) by {
                assert(dest_path(sv.to, tasks[i].rel)[k] == sv.to[k]);
            }
        }
        assert(lookup(post, prefix) == lookup(s, prefix));
        lemma_fold_preserves_tasks(s, tasks, st, sv, pr, prefix);
        assert(tasks_of(post, prefix) == tasks);
        lemma_settled_fold(post, tasks, st2, sv, pr);
    }
}

/// Idempotence: once a whole batch of independent link tasks has gone
/// through successfully, performing the very same batch again — same
/// settings, same confirmation capability — changes nothing: the filesystem
/// stays exactly as it was, no task links or overwrites, and every task is
/// counted as skipped.
pub proof fn lemma_run_tasks_idempotent(
    s: Seq<EntryV>,
    tasks: Seq<TaskV>,
    st: StatsV,
    st2: StatsV,
    sv: SettingsV,
    pr: Prompter,
)
    requires
        wf_seq(s),
        independent_tasks(s, tasks, sv),
        run_tasks(s, tasks, st, sv, pr).2 is None,
    ensures
        run_tasks(run_tasks(s, tasks, st, sv, pr).0, tasks, st2, sv, pr) == (
            run_tasks(s, tasks, st, sv, pr).0,
            skipped_all(st2, tasks.len()),
            Option::<EngineError>::None,
        ),
{
    lemma_run_tasks_settles(s, tasks, st, sv, pr);
    lemma_settled_fold(run_tasks(s, tasks, st, sv, pr).0, tasks, st2, sv, pr);
}

/// Directory materialization: creating a destination's parent chain makes
/// every level of the chain present, gives every level that was missing a
/// directory with the configured mode, and is idempotent — doing it again
/// changes nothing and cannot fail.
pub proof fn lemma_directory_materialization(s: Seq<EntryV>, p: Seq<Seq<u8>>, mode: u32)
    requires
        wf_seq(s),
        !blocked(s, p),
    ensures
        forall|l: int|
            1 <= l <= p.len() ==> lookup(ensure_dirs(s, p, mode), #[trigger] p.take(l)) is Some,
        forall|l: int|
            1 <= l <= p.len() && lookup(s, #[trigger] p.take(l)) is None ==> lookup(
                ensure_dirs(s, p, mode),
                p.take(l),
            ) == Some(FsNode::Dir(mode)),
        ensure_dirs(ensure_dirs(s, p, mode), p, mode) == ensure_dirs(s, p, mode),
        !blocked(ensure_dirs(s, p, mode), p),
{
    crate::engine::lemma_ensure_dirs(s, p, mode);
    let r = ensure_dirs(s, p, mode);
    assert forall|l: int| 1 <= l <= p.len() implies lookup(r, #[trigger] p.take(l)) is Some by {
        if lookup(s, p.take(l)) is None {
            assert(missing_prefix(s, p, p.take(l)));
        }
    }
    if p.len() > 0 {
        assert(p.take(p.len() as int) =~= p);
        assert(lookup(r, p) is Some);
    }
    assert(!blocked(r, p)) by {
        if blocked(r, p) {
            let l = choose|l: int|
                1 <= l <= p.len() && lookup(r, #[trigger] p.take(l)) matches Some(
                    FsNode::File(_),
                );
            if lookup(s, p.take(l)) is None {
                assert(missing_prefix(s, p, p.take(l)));
            } else {
                assert(lookup(r, p.take(l)) == lookup(s, p.take(l)));
            }
        }
    }
}

} // verus!
