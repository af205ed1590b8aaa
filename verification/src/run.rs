//! The run coordinator: resolves choices once, then for each chosen package
//! walks its files and performs one link task per file, folding the
//! outcomes into the run's counters.  The first fatal error aborts the run.

use vstd::prelude::*;

use crate::choices::{choices_spec, get_choices};
use crate::engine::{
    create_hard_link, link_fs, link_overwrote, link_result, stats_next, EngineError, Prompter,
    Settings, SettingsV, Stats, StatsV,
};
use crate::fsmodel::{lookup, EntryV, Fs, FsNode};
use crate::paths::{clone_name, clone_path, concat_paths, pview};
use crate::walk::{lemma_relative_path_fidelity, tasks_of, tasks_view, walk_files, TaskV};

verus! {

/// Counters at zero.
pub open spec fn zero_stats() -> StatsV {
    StatsV { linked: 0, skipped: 0, overwritten: 0 }
}

/// A task's destination: its relative path rebased onto the destination
/// root.
pub open spec fn dest_path(to: Seq<Seq<u8>>, rel: Seq<Seq<u8>>) -> Seq<Seq<u8>> {
    to + rel
}

/// The package subtree a choice names.
pub open spec fn choice_prefix(sv: SettingsV, choice: Seq<u8>) -> Seq<Seq<u8>> {
    sv.from.push(choice)
}

/// Folding the link operation over a task list: the filesystem and counters
/// after processing, and the first fatal error if one arose (processing
/// stops there).
pub open spec fn run_tasks(
    s: Seq<EntryV>,
    tasks: Seq<TaskV>,
    st: StatsV,
    sv: SettingsV,
    pr: Prompter,
) -> (Seq<EntryV>, StatsV, Option<EngineError>)
    decreases tasks.len(),
{
    if tasks.len() == 0 {
        (s, st, None)
    } else {
        let t = tasks[0];
        let d = dest_path(sv.to, t.rel);
        let conf = pr.says_yes(d);
        let r = link_result(s, t.source, d, sv.force, sv.interactive, conf);
        let s1 = link_fs(s, t.source, d, sv.force, sv.interactive, conf, sv.directory_mode);
        let st1 = stats_next(
            st,
            r,
            link_overwrote(s, t.source, d, sv.force, sv.interactive, conf),
        );
        if r is Err {
            (s1, st1, Some(r->Err_0))
        } else {
            run_tasks(s1, tasks.drop_first(), st1, sv, pr)
        }
    }
}

/// Processing one choice: nothing at all when the named package is not a
/// directory (tolerated with a warning, never an error), else the fold of
/// the link operation over the package's files.
pub open spec fn process_choice_spec(
    s: Seq<EntryV>,
    choice: Seq<u8>,
    st: StatsV,
    sv: SettingsV,
    pr: Prompter,
) -> (Seq<EntryV>, StatsV, Option<EngineError>) {
    let prefix = choice_prefix(sv, choice);
    if !(lookup(s, prefix) matches Some(FsNode::Dir(_))) {
        (s, st, None)
    } else {
        run_tasks(s, tasks_of(s, prefix), st, sv, pr)
    }
}

/// Folding [`process_choice_spec`] over the choices in order, stopping at
/// the first fatal error.
pub open spec fn run_choices(
    s: Seq<EntryV>,
    cs: Seq<Seq<u8>>,
    st: StatsV,
    sv: SettingsV,
    pr: Prompter,
) -> (Seq<EntryV>, StatsV, Option<EngineError>)
    decreases cs.len(),
{
    if cs.len() == 0 {
        (s, st, None)
    } else {
        let step = process_choice_spec(s, cs[0], st, sv, pr);
        if step.2 is Some {
            step
        } else {
            run_choices(step.0, cs.drop_first(), step.1, sv, pr)
        }
    }
}

/// One whole run: choice resolution, then the fold over the choices.
pub open spec fn run_spec(s: Seq<EntryV>, sv: SettingsV, pr: Prompter) -> (
    Seq<EntryV>,
    StatsV,
    Option<EngineError>,
) {
    match choices_spec(s, sv) {
        Err(e) => (s, zero_stats(), Some(e)),
        Ok(cs) => run_choices(s, cs, zero_stats(), sv, pr),
    }
}

/// Processes one choice: skips it (successfully, warning left to the
/// caller's logging) when the package is not a directory, otherwise links
/// every file beneath it.  Effect and counters are pinned by
/// [`process_choice_spec`]; each counter grows by at most one per file of
/// the package.
#[verifier::loop_isolation(false)]
pub fn process_choice(
    fs: &mut Fs,
    choice: &Vec<u8>,
    settings: &Settings,
    prompter: &Prompter,
    stats: &mut Stats,
) -> (r: Result<(), EngineError>)
    requires
        old(fs).wf(),
        old(stats).linked <= u128::MAX - (u64::MAX as u128),
        old(stats).skipped <= u128::MAX - (u64::MAX as u128),
        old(stats).overwritten <= u128::MAX - (u64::MAX as u128),
    ensures
        final(fs).wf(),
        final(fs)@ == process_choice_spec(
            old(fs)@,
            choice@,
            old(stats).v(),
            settings.v(),
            *prompter,
        ).0,
        final(stats).v() == process_choice_spec(
            old(fs)@,
            choice@,
            old(stats).v(),
            settings.v(),
            *prompter,
        ).1,
        r == (match process_choice_spec(
            old(fs)@,
            choice@,
            old(stats).v(),
            settings.v(),
            *prompter,
        ).2 {
            Some(e) => Err::<(), EngineError>(e),
            None => Ok::<(), EngineError>(()),
        }),
        final(stats).v().linked <= old(stats).v().linked + (u64::MAX as nat),
        final(stats).v().skipped <= old(stats).v().skipped + (u64::MAX as nat),
        final(stats).v().overwritten <= old(stats).v().overwritten + (u64::MAX as nat),
{
    let ghost s0 = old(fs)@;
    let ghost st0 = old(stats).v();
    let ghost sv = settings.v();
    let ghost pr = *prompter;

    let mut prefix = clone_path(&settings.from);
    prefix.push(clone_name(choice));
    proof {
        assert(pview(prefix@) =~= choice_prefix(sv, choice@));
    }
    let prefix_is_dir = match fs.node_at(&prefix) {
        Some(FsNode::Dir(_)) => true,
        _ => false,
    };
    if !prefix_is_dir {
        return Ok(());
    }
    let tasks = walk_files(fs, &prefix);
    let ghost tasksv = tasks_of(s0, pview(prefix@));
    proof {
        assert(tasksv.skip(0) =~= tasksv);
    }
    let mut j: usize = 0;
    while j < tasks.len()
        invariant
            fs.wf(),
            j <= tasks@.len(),
            tasks_view(tasks@) == tasksv,
            sv == settings.v(),
            pr == *prompter,
            usize::MAX <= u64::MAX,
            st0.linked <= u128::MAX - (u64::MAX as u128),
            st0.skipped <= u128::MAX - (u64::MAX as u128),
            st0.overwritten <= u128::MAX - (u64::MAX as u128),
            stats.v().linked <= st0.linked + j,
            stats.v().skipped <= st0.skipped + j,
            stats.v().overwritten <= st0.overwritten + j,
            run_tasks(s0, tasksv, st0, sv, pr) == run_tasks(
                fs@,
                tasksv.skip(j as int),
                stats.v(),
                sv,
                pr,
            ),
        decreases tasks@.len() - j,
    {
        proof {
            assert(tasks@[j as int].v() == tasksv[j as int]);
            lemma_relative_path_fidelity(s0, pview(prefix@), j as int);
            assert(tasksv.skip(j as int)[0] == tasksv[j as int]);
            assert(tasksv.skip(j as int).drop_first() =~= tasksv.skip(j + 1));
        }
        let t = &tasks[j];
        let dest = concat_paths(&settings.to, &t.rel);
        proof {
            assert(pview(dest@) == dest_path(sv.to, tasksv[j as int].rel));
            assert(dest@.len() > 0);
        }
        match create_hard_link(fs, &t.source, &dest, settings, prompter, stats) {
            Err(e) => {
                return Err(e);
            },
            Ok(_) => {},
        }
        j += 1;
    }
    proof {
        assert(tasksv.skip(tasks@.len() as int) =~= Seq::<TaskV>::empty());
    }
    Ok(())
}

/// The run coordinator: resolves the choices, then processes each in order,
/// accumulating the counters; the first fatal error aborts the run and the
/// counters are discarded.  The effect is pinned by [`run_spec`].
#[verifier::loop_isolation(false)]
pub fn run(fs: &mut Fs, settings: &Settings, prompter: &Prompter) -> (r: Result<
    Stats,
    EngineError,
>)
    requires
        old(fs).wf(),
    ensures
        final(fs).wf(),
        final(fs)@ == run_spec(old(fs)@, settings.v(), *prompter).0,
        r matches Ok(st) ==> run_spec(old(fs)@, settings.v(), *prompter).2 is None && st.v()
            == run_spec(old(fs)@, settings.v(), *prompter).1,
        r matches Err(e) ==> run_spec(old(fs)@, settings.v(), *prompter).2 == Some(e),
{
    let ghost s0 = old(fs)@;
    let ghost sv = settings.v();
    let ghost pr = *prompter;

    let choices = match get_choices(fs, settings) {
        Err(e) => {
            return Err(e);
        },
        Ok(cs) => cs,
    };
    let ghost csv = pview(choices@);
    let mut stats = Stats::new();
    proof {
        assert(csv.skip(0) =~= csv);
    }
    let mut i: usize = 0;
    while i < choices.len()
        invariant
            fs.wf(),
            i <= choices@.len(),
            csv == pview(choices@),
            sv == settings.v(),
            pr == *prompter,
            choices_spec(s0, sv) == Ok::<Seq<Seq<u8>>, EngineError>(csv),
            stats.v().linked <= (i as nat) * (u64::MAX as nat),
            stats.v().skipped <= (i as nat) * (u64::MAX as nat),
            stats.v().overwritten <= (i as nat) * (u64::MAX as nat),
            run_choices(s0, csv, zero_stats(), sv, pr) == run_choices(
                fs@,
                csv.skip(i as int),
                stats.v(),
                sv,
                pr,
            ),
        decreases choices@.len() - i,
    {
        proof {
            lemma_counter_headroom(i as nat, choices@.len() as nat);
            assert(csv.skip(i as int)[0] == csv[i as int]);
            assert(csv.skip(i as int).drop_first() =~= csv.skip(i + 1));
            assert(choices@[i as int]@ == csv[i as int]);
        }
        let ghost st_before = stats.v();
        match process_choice(fs, &choices[i], settings, prompter, &mut stats) {
            Err(e) => {
                return Err(e);
            },
            Ok(()) => {},
        }
        proof {
            vstd::arithmetic::mul::lemma_mul_is_distributive_add_other_way(
                u64::MAX as int,
                i as int,
                1,
            );
        }
        i += 1;
    }
    proof {
        assert(csv.skip(choices@.len() as int) =~= Seq::<Seq<u8>>::empty());
    }
    Ok(stats)
}

/// Counter headroom: with fewer choices than `u64::MAX` processed so far,
/// the accumulated counters are far enough from the top of `u128` for one
/// more package.
proof fn lemma_counter_headroom(i: nat, n: nat)
    requires
        i < n,
        n <= u64::MAX as nat,
    ensures
        i * (u64::MAX as nat) <= u128::MAX as nat - (u64::MAX as nat),
{
    let k = u64::MAX as int;
    assert((i as int) * k <= (k - 1) * k) by (nonlinear_arith)
        requires
            i as int <= k - 1,
            k >= 0,
    ;
    assert((k - 1) * k + k == k * k) by (nonlinear_arith);
    assert(k * k <= 0xffff_ffff_ffff_ffff_ffff_ffff_ffff_ffff) by (nonlinear_arith)
        requires
            k == 0xffff_ffff_ffff_ffff,
    ;
}

} // verus!
