//! The linking engine: identity check, directory materialization and the
//! conflict-resolution state machine for one link task.
//!
//! Each function is verified against a specification-level model of its
//! effect on the filesystem ([`link_result`], [`link_fs`], [`ensure_dirs`]),
//! so that the laws of the engine — idempotence, the conflict policy table,
//! idempotent directory creation — are proved once over those models.

use vstd::prelude::*;

use crate::fsmodel::{
    dir_at, lemma_lookup_none, lemma_lookup_push, lemma_lookup_remove, lemma_lookup_some,
    lemma_prefix_dirs_from_parent, lemma_wf_push, lemma_wf_remove_file, lookup, remove_first,
    wf_seq, EntryV, Fs, FsNode,
};
use crate::paths::pview;

verus! {

/// The engine's settings, fully resolved by the caller: roots, conflict
/// policy flags (force wins over interactive), the mode for created
/// directories, and the explicitly chosen packages (possibly none).
pub struct Settings {
    pub from: Vec<Vec<u8>>,
    pub to: Vec<Vec<u8>>,
    pub force: bool,
    pub interactive: bool,
    pub directory_mode: u32,
    pub choices: Vec<Vec<u8>>,
}

/// The specification view of [`Settings`].
pub ghost struct SettingsV {
    pub from: Seq<Seq<u8>>,
    pub to: Seq<Seq<u8>>,
    pub force: bool,
    pub interactive: bool,
    pub directory_mode: u32,
    pub choices: Seq<Seq<u8>>,
}

impl Settings {
    pub open spec fn v(self) -> SettingsV {
        SettingsV {
            from: pview(self.from@),
            to: pview(self.to@),
            force: self.force,
            interactive: self.interactive,
            directory_mode: self.directory_mode,
            choices: pview(self.choices@),
        }
    }
}

/// Counters for one run: files newly linked, files skipped (already linked
/// or conflicting), and existing destinations removed for overwriting.
pub struct Stats {
    pub linked: u128,
    pub skipped: u128,
    pub overwritten: u128,
}

/// The specification view of [`Stats`]: unbounded counters.
pub ghost struct StatsV {
    pub linked: nat,
    pub skipped: nat,
    pub overwritten: nat,
}

impl Stats {
    pub open spec fn v(self) -> StatsV {
        StatsV {
            linked: self.linked as nat,
            skipped: self.skipped as nat,
            overwritten: self.overwritten as nat,
        }
    }

    /// Fresh counters, all zero.
    pub fn new() -> (r: Stats)
        ensures
            r.v() == (StatsV { linked: 0, skipped: 0, overwritten: 0 }),
    {
        Stats { linked: 0, skipped: 0, overwritten: 0 }
    }
}

/// The deterministic confirmation capability: it confirms overwriting
/// exactly the destinations on its list.
pub struct Prompter {
    pub yes: Vec<Vec<Vec<u8>>>,
}

impl Prompter {
    /// Does the capability confirm overwriting `dest`?
    pub open spec fn says_yes(self, dest: Seq<Seq<u8>>) -> bool {
        exists|k: int| 0 <= k < self.yes@.len() && pview(self.yes@[k]@) == dest
    }

    /// A capability that declines every overwrite.
    pub fn declining() -> (r: Prompter)
        ensures
            forall|dest: Seq<Seq<u8>>| !r.says_yes(dest),
    {
        Prompter { yes: Vec::new() }
    }

    /// Asks about one destination.
    pub fn ask(&self, dest: &Vec<Vec<u8>>) -> (r: bool)
        ensures
            r == self.says_yes(pview(dest@)),
    {
        let mut k: usize = 0;
        while k < self.yes.len()
            invariant
                k <= self.yes@.len(),
                forall|j: int| 0 <= j < k ==> pview(self.yes@[j]@) != pview(dest@),
            decreases self.yes@.len() - k,
        {
            if crate::paths::path_eq(&self.yes[k], dest) {
                return true;
            }
            k += 1;
        }
        false
    }
}

/// What one link task produced.
#[derive(Clone, Copy, Debug, PartialEq, Eq, Structural)]
pub enum LinkOutcome {
    /// A new hard link was created.
    Linked,
    /// The destination already shared the source's identity; nothing done.
    AlreadyLinked,
    /// A conflicting destination was left untouched, by policy or refusal.
    SkippedConflict,
    /// A conflicting destination was removed and the link created.
    Overwritten,
}

/// The engine's fatal errors.
#[derive(Clone, Copy, Debug, PartialEq, Eq, Structural)]
pub enum EngineError {
    /// Choice resolution found nothing to process.
    NoChoices,
    /// The source root could not be read as a directory.
    SourceUnreadable,
    /// A source file vanished while its destination exists.
    SourceMissing,
    /// A missing destination ancestor could not be created: a non-directory
    /// stands on the chain.
    CreateDirFailed,
    /// A conflicting destination could not be removed (it is a directory).
    RemoveFailed,
    /// The hard link could not be created for another reason: the parent is
    /// not a directory, or the source is not a regular file.
    LinkFailed,
}

/// What the policy does when a link attempt hits an existing destination.
#[derive(Clone, Copy, Debug, PartialEq, Eq, Structural)]
pub enum ConflictAction {
    /// Remove the destination and retry the link.
    Overwrite,
    /// Consult the confirmation capability, then overwrite or skip.
    AskUser,
    /// Leave the destination untouched and count the task as skipped.
    Skip,
}

/// The policy's first decision at a conflict: force wins over interactive,
/// interactive asks, neither skips.
pub fn conflict_action(force: bool, interactive: bool) -> (r: ConflictAction)
    ensures
        force ==> r == ConflictAction::Overwrite,
        !force && interactive ==> r == ConflictAction::AskUser,
        !force && !interactive ==> r == ConflictAction::Skip,
{
    if force {
        ConflictAction::Overwrite
    } else if interactive {
        ConflictAction::AskUser
    } else {
        ConflictAction::Skip
    }
}

/// The policy's final decision at a conflict, once any confirmation answer
/// is in hand.
pub fn resolve_conflict(force: bool, interactive: bool, confirmed: bool) -> (r: bool)
    ensures
        r == conflict_overwrites(force, interactive, confirmed),
{
    force || (interactive && confirmed)
}

/// The identity check on raw device and inode numbers: do two directory
/// entries name one file?
pub fn identity_matches(src_dev: u64, src_ino: u64, dest_dev: u64, dest_ino: u64) -> (r: bool)
    ensures
        r == (src_dev == dest_dev && src_ino == dest_ino),
{
    src_dev == dest_dev && src_ino == dest_ino
}

/// Do the two paths already name the same file?
pub open spec fn already_linked(s: Seq<EntryV>, src: Seq<Seq<u8>>, dest: Seq<Seq<u8>>) -> bool {
    match (lookup(s, src), lookup(s, dest)) {
        (Some(FsNode::File(a)), Some(FsNode::File(b))) => a == b,
        _ => false,
    }
}

/// The identity of the file at `p` (meaningful when a file is there).
pub open spec fn file_id(s: Seq<EntryV>, p: Seq<Seq<u8>>) -> u64 {
    lookup(s, p)->Some_0->File_0
}

/// Creating directories along `p` would run into a regular file.
pub open spec fn blocked(s: Seq<EntryV>, p: Seq<Seq<u8>>) -> bool {
    exists|l: int|
        1 <= l <= p.len() && lookup(s, #[trigger] p.take(l)) matches Some(FsNode::File(_))
}

/// The filesystem after idempotently creating `p` and its missing ancestors
/// as directories with mode `mode` (a no-op where `p` already exists).
pub open spec fn ensure_dirs(s: Seq<EntryV>, p: Seq<Seq<u8>>, mode: u32) -> Seq<EntryV>
    decreases p.len(),
{
    if p.len() == 0 || lookup(s, p) is Some {
        s
    } else {
        ensure_dirs(s, p.drop_last(), mode).push(EntryV { path: p, node: FsNode::Dir(mode) })
    }
}

/// Is `q` a non-empty prefix of `p` that is absent from `s` (and so created
/// by [`ensure_dirs`])?
pub open spec fn missing_prefix(
    s: Seq<EntryV>,
    p: Seq<Seq<u8>>,
    q: Seq<Seq<u8>>,
) -> bool {
    lookup(s, q) is None && exists|l: int| 1 <= l <= p.len() && q == p.take(l)
}

/// Does the conflict policy overwrite, given whether the confirmation
/// capability (consulted only under `interactive`) confirmed?
pub open spec fn conflict_overwrites(force: bool, interactive: bool, confirmed: bool) -> bool {
    force || (interactive && confirmed)
}

/// The parent of a path.
pub open spec fn parent_of(p: Seq<Seq<u8>>) -> Seq<Seq<u8>> {
    p.drop_last()
}

/// What one link task returns, given the filesystem it starts from.  The
/// order of the tests mirrors the state machine: identity check, then the
/// conflict states, then parent materialization and the link attempt.
pub open spec fn link_result(
    s: Seq<EntryV>,
    src: Seq<Seq<u8>>,
    dest: Seq<Seq<u8>>,
    force: bool,
    interactive: bool,
    confirmed: bool,
) -> Result<LinkOutcome, EngineError> {
    if already_linked(s, src, dest) {
        Ok(LinkOutcome::AlreadyLinked)
    } else if lookup(s, dest) is Some {
        if lookup(s, src) is None {
            Err(EngineError::SourceMissing)
        } else if !conflict_overwrites(force, interactive, confirmed) {
            Ok(LinkOutcome::SkippedConflict)
        } else if lookup(s, dest) matches Some(FsNode::Dir(_)) {
            Err(EngineError::RemoveFailed)
        } else if lookup(s, src) matches Some(FsNode::File(_)) {
            Ok(LinkOutcome::Overwritten)
        } else {
            Err(EngineError::LinkFailed)
        }
    } else {
        if parent_of(dest).len() > 0 && lookup(s, parent_of(dest)) is None && blocked(
            s,
            parent_of(dest),
        ) {
            Err(EngineError::CreateDirFailed)
        } else if parent_of(dest).len() > 0 && lookup(s, parent_of(dest)) matches Some(
            FsNode::File(_),
        ) {
            Err(EngineError::LinkFailed)
        } else if lookup(s, src) matches Some(FsNode::File(_)) {
            Ok(LinkOutcome::Linked)
        } else {
            Err(EngineError::LinkFailed)
        }
    }
}

/// Was a conflicting destination file removed (counted as overwritten)?
pub open spec fn link_overwrote(
    s: Seq<EntryV>,
    src: Seq<Seq<u8>>,
    dest: Seq<Seq<u8>>,
    force: bool,
    interactive: bool,
    confirmed: bool,
) -> bool {
    &&& !already_linked(s, src, dest)
    &&& lookup(s, dest) matches Some(FsNode::File(_))
    &&& lookup(s, src) is Some
    &&& conflict_overwrites(force, interactive, confirmed)
}

/// The filesystem after one link task.
pub open spec fn link_fs(
    s: Seq<EntryV>,
    src: Seq<Seq<u8>>,
    dest: Seq<Seq<u8>>,
    force: bool,
    interactive: bool,
    confirmed: bool,
    mode: u32,
) -> Seq<EntryV> {
    match link_result(s, src, dest, force, interactive, confirmed) {
        Ok(LinkOutcome::Linked) => ensure_dirs(s, parent_of(dest), mode).push(
            EntryV { path: dest, node: FsNode::File(file_id(s, src)) },
        ),
        Ok(LinkOutcome::Overwritten) => remove_first(s, dest).push(
            EntryV { path: dest, node: FsNode::File(file_id(s, src)) },
        ),
        Ok(_) => s,
        Err(EngineError::LinkFailed) => if lookup(s, dest) is Some {
            // the conflicting file was removed, then relinking failed
            if link_overwrote(s, src, dest, force, interactive, confirmed) {
                remove_first(s, dest)
            } else {
                s
            }
        } else {
            // ancestors may have been created before the attempt failed
            ensure_dirs(s, parent_of(dest), mode)
        },
        Err(_) => s,
    }
}

/// The counters after one link task.
pub open spec fn stats_next(
    st: StatsV,
    r: Result<LinkOutcome, EngineError>,
    overwrote: bool,
) -> StatsV {
    StatsV {
        linked: st.linked + if r == Ok::<LinkOutcome, EngineError>(LinkOutcome::Linked) || r
            == Ok::<LinkOutcome, EngineError>(LinkOutcome::Overwritten) {
            1nat
        } else {
            0nat
        },
        skipped: st.skipped + if r == Ok::<LinkOutcome, EngineError>(LinkOutcome::AlreadyLinked)
            || r == Ok::<LinkOutcome, EngineError>(LinkOutcome::SkippedConflict) {
            1nat
        } else {
            0nat
        },
        overwritten: st.overwritten + if overwrote {
            1nat
        } else {
            0nat
        },
    }
}

/// What [`ensure_dirs`] does: it adds exactly the missing non-empty
/// prefixes of `p` as directories with the given mode, leaves every other
/// path alone, preserves well-formedness, and leaves `p` resolvable as a
/// directory — provided no regular file stands on the chain.
pub proof fn lemma_ensure_dirs(s: Seq<EntryV>, p: Seq<Seq<u8>>, mode: u32)
    requires
        wf_seq(s),
        !blocked(s, p),
    ensures
        wf_seq(ensure_dirs(s, p, mode)),
        forall|q: Seq<Seq<u8>>| #[trigger]
            lookup(ensure_dirs(s, p, mode), q) == if missing_prefix(s, p, q) {
                Some(FsNode::Dir(mode))
            } else {
                lookup(s, q)
            },
        dir_at(ensure_dirs(s, p, mode), p),
    decreases p.len(),
{
    let r = ensure_dirs(s, p, mode);
    assert(p.len() > 0 ==> p.take(p.len() as int) =~= p);
    if p.len() == 0 {
        assert forall|q: Seq<Seq<u8>>| !missing_prefix(s, p, q) by {}
    } else if lookup(s, p) is Some {
        assert(!(lookup(s, p) matches Some(FsNode::File(_))));
        lemma_lookup_some(s, p);
        let i = choose|i: int|
            0 <= i < s.len() && s[i].path == p && s[i].node == lookup(s, p)->Some_0;
        assert forall|q: Seq<Seq<u8>>| !missing_prefix(s, p, q) by {
            if lookup(s, q) is None {
                if exists|l: int| 1 <= l <= p.len() && q == p.take(l) {
                    let l = choose|l: int| 1 <= l <= p.len() && q == p.take(l);
                    if l == p.len() {
                        assert(q == p);
                    } else {
                        assert(dir_at(s, s[i].path.take(l)));
                    }
                }
            }
        }
    } else {
        let p1 = parent_of(p);
        assert(forall|l: int| 1 <= l <= p1.len() ==> #[trigger] p1.take(l) =~= p.take(l));
        assert(!blocked(s, p1)) by {
            if blocked(s, p1) {
                let l = choose|l: int|
                    1 <= l <= p1.len() && lookup(s, #[trigger] p1.take(l)) matches Some(FsNode::File(_));
                assert(lookup(s, p.take(l)) matches Some(FsNode::File(_)));
            }
        }
        lemma_ensure_dirs(s, p1, mode);
        let r1 = ensure_dirs(s, p1, mode);
        let e = EntryV { path: p, node: FsNode::Dir(mode) };
        assert(!missing_prefix(s, p1, p)) by {
            if exists|l: int| 1 <= l <= p1.len() && p == p1.take(l) {
                let l = choose|l: int| 1 <= l <= p1.len() && p == p1.take(l);
                assert(p.len() == l <= p1.len());
            }
        }
        assert(lookup(r1, p) is None);
        assert forall|l: int| 1 <= l < p.len() implies dir_at(r1, #[trigger] p.take(l)) by {
            let t = p.take(l);
            assert(t =~= p1.take(l));
            if lookup(s, t) is None {
                assert(missing_prefix(s, p1, t));
                assert(lookup(r1, t) == Some(FsNode::Dir(mode)));
            } else {
                assert(!(lookup(s, t) matches Some(FsNode::File(_))));
                assert(lookup(r1, t) == lookup(s, t));
                lemma_lookup_some(s, t);
            }
        }
        lemma_wf_push(r1, e);
        assert(r == r1.push(e));
        assert forall|q: Seq<Seq<u8>>| #[trigger] lookup(r, q) == if missing_prefix(s, p, q) {
            Some(FsNode::Dir(mode))
        } else {
            lookup(s, q)
        } by {
            lemma_lookup_push(r1, e, q);
            if q == p {
                assert(missing_prefix(s, p, q)) by {
                    assert(q == p.take(p.len() as int));
                }
            } else {
                if missing_prefix(s, p, q) {
                    let l = choose|l: int| 1 <= l <= p.len() && q == p.take(l);
                    assert(l < p.len());
                    assert(q == p1.take(l));
                    assert(missing_prefix(s, p1, q));
                } else if missing_prefix(s, p1, q) {
                    let l = choose|l: int| 1 <= l <= p1.len() && q == p1.take(l);
                    assert(q == p.take(l));
                    assert(missing_prefix(s, p, q));
                }
            }
        }
        assert(lookup(r, p) == Some(FsNode::Dir(mode))) by {
            lemma_lookup_push(r1, e, p);
        }
    }
}

/// The identity check of the state machine: does the destination already
/// name the same file as the source?  Fails only when the destination is
/// there but the source's metadata cannot be read (the source is gone).
pub fn is_already_linked(fs: &Fs, src: &Vec<Vec<u8>>, dest: &Vec<Vec<u8>>) -> (r: Result<
    bool,
    EngineError,
>)
    ensures
        r == if lookup(fs@, pview(dest@)) is Some && lookup(fs@, pview(src@)) is None {
            Err::<bool, EngineError>(EngineError::SourceMissing)
        } else {
            Ok::<bool, EngineError>(already_linked(fs@, pview(src@), pview(dest@)))
        },
{
    match fs.node_at(dest) {
        None => Ok(false),
        Some(dnode) => match fs.node_at(src) {
            None => Err(EngineError::SourceMissing),
            Some(snode) => match (snode, dnode) {
                (FsNode::File(a), FsNode::File(b)) => Ok(a == b),
                _ => Ok(false),
            },
        },
    }
}

/// Creates the first `n` components of `p` as a directory chain, outermost
/// first, stopping at whatever already exists.
fn ensure_dir_upto(fs: &mut Fs, p: &Vec<Vec<u8>>, n: usize, mode: u32) -> (r: Result<
    (),
    EngineError,
>)
    requires
        old(fs).wf(),
        n <= p@.len(),
    ensures
        final(fs).wf(),
        r == if blocked(old(fs)@, pview(p@).take(n as int)) {
            Err::<(), EngineError>(EngineError::CreateDirFailed)
        } else {
            Ok::<(), EngineError>(())
        },
        r is Ok ==> final(fs)@ == ensure_dirs(old(fs)@, pview(p@).take(n as int), mode),
        r is Err ==> final(fs)@ == old(fs)@,
    decreases n,
{
    let ghost q = pview(p@).take(n as int);
    if n == 0 {
        proof {
            assert(!blocked(old(fs)@, q));
        }
        return Ok(());
    }
    match fs.node_at_prefix(p, n) {
        Some(FsNode::Dir(_)) => {
            proof {
                assert(!blocked(fs@, q)) by {
                    if blocked(fs@, q) {
                        let l = choose|l: int|
                            1 <= l <= q.len() && lookup(fs@, #[trigger] q.take(l)) matches Some(
                                FsNode::File(_),
                            );
                        assert(q.take(q.len() as int) =~= q);
                        if l < q.len() {
                            lemma_lookup_some(fs@, q);
                            let i = choose|i: int|
                                0 <= i < fs@.len() && fs@[i].path == q && fs@[i].node == lookup(
                                    fs@,
                                    q,
                                )->Some_0;
                            assert(dir_at(fs@, fs@[i].path.take(l)));
                        }
                    }
                }
            }
            Ok(())
        },
        Some(FsNode::File(_)) => {
            proof {
                assert(q.take(q.len() as int) =~= q);
                assert(blocked(fs@, q));
            }
            Err(EngineError::CreateDirFailed)
        },
        None => {
            proof {
                assert(pview(p@).take(n - 1) =~= q.drop_last());
                assert(forall|l: int|
                    1 <= l <= q.len() - 1 ==> #[trigger] q.drop_last().take(l) =~= q.take(l));
                assert(blocked(fs@, q.drop_last()) == blocked(fs@, q)) by {
                    if blocked(fs@, q.drop_last()) {
                        let l = choose|l: int|
                            1 <= l <= q.drop_last().len() && lookup(
                                fs@,
                                #[trigger] q.drop_last().take(l),
                            ) matches Some(FsNode::File(_));
                        assert(lookup(fs@, q.take(l)) matches Some(FsNode::File(_)));
                    }
                    if blocked(fs@, q) {
                        let l = choose|l: int|
                            1 <= l <= q.len() && lookup(fs@, #[trigger] q.take(l)) matches Some(
                                FsNode::File(_),
                            );
                        assert(q.take(q.len() as int) =~= q);
                        assert(l < q.len());
                        assert(lookup(fs@, q.drop_last().take(l)) matches Some(FsNode::File(_)));
                    }
                }
            }
            match ensure_dir_upto(fs, p, n - 1, mode) {
                Err(e) => Err(e),
                Ok(()) => {
                    proof {
                        lemma_ensure_dirs(old(fs)@, q.drop_last(), mode);
                        assert(!missing_prefix(old(fs)@, q.drop_last(), q)) by {
                            if exists|l: int| 1 <= l <= q.drop_last().len() && q == q.drop_last()
                                .take(l) {
                                let l = choose|l: int|
                                    1 <= l <= q.drop_last().len() && q == q.drop_last().take(l);
                                assert(q.len() == l);
                            }
                        }
                        assert(lookup(fs@, q) is None);
                        assert forall|l: int| 1 <= l < q.len() implies dir_at(
                            fs@,
                            #[trigger] q.take(l),
                        ) by {
                            let t = q.take(l);
                            assert(t =~= q.drop_last().take(l));
                            if lookup(old(fs)@, t) is None {
                                assert(missing_prefix(old(fs)@, q.drop_last(), t));
                            } else {
                                assert(!(lookup(old(fs)@, t) matches Some(FsNode::File(_))));
                            }
                        }
                        lemma_wf_push(fs@, EntryV { path: q, node: FsNode::Dir(mode) });
                    }
                    let mut owned: Vec<Vec<u8>> = Vec::new();
                    let mut j: usize = 0;
                    while j < n
                        invariant
                            j <= n,
                            n <= p@.len(),
                            owned@.len() == j,
                            forall|k: int| 0 <= k < j ==> owned@[k]@ == p@[k]@,
                        decreases n - j,
                    {
                        owned.push(crate::paths::clone_name(&p[j]));
                        j += 1;
                    }
                    proof {
                        assert(pview(owned@) =~= q);
                    }
                    fs.push_entry(owned, FsNode::Dir(mode));
                    Ok(())
                },
            }
        },
    }
}

/// The directory materializer: a no-op where `parent` already exists (of
/// whatever type), otherwise it creates `parent` and every missing ancestor
/// as directories with mode `mode`, in one idempotent operation.
pub fn ensure_parent_dir(fs: &mut Fs, parent: &Vec<Vec<u8>>, mode: u32) -> (r: Result<
    (),
    EngineError,
>)
    requires
        old(fs).wf(),
    ensures
        final(fs).wf(),
        r == if lookup(old(fs)@, pview(parent@)) is None && blocked(old(fs)@, pview(parent@)) {
            Err::<(), EngineError>(EngineError::CreateDirFailed)
        } else {
            Ok::<(), EngineError>(())
        },
        r is Ok ==> final(fs)@ == ensure_dirs(old(fs)@, pview(parent@), mode),
        r is Err ==> final(fs)@ == old(fs)@,
{
    if parent.len() == 0 {
        proof {
            assert(!blocked(fs@, pview(parent@)));
        }
        return Ok(());
    }
    if fs.node_at(parent).is_some() {
        return Ok(());
    }
    proof {
        assert(pview(parent@).take(parent@.len() as int) =~= pview(parent@));
    }
    ensure_dir_upto(fs, parent, parent.len(), mode)
}

/// One link task: the conflict-resolution state machine of the engine.
///
/// Checks whether the destination already names the source's file (then
/// nothing is done and the task counts as skipped), otherwise materializes
/// the destination's parent chain and attempts the link; an existing
/// destination is a conflict, resolved by the policy: under `force`, or
/// under `interactive` with the prompter confirming, the destination file
/// is removed and the link retried, otherwise the task is skipped.  Any
/// other failure is fatal.  The remove-then-retry transition is taken at
/// most once per task: with the obstruction gone the retry either creates
/// the link or fails fatally, never loops.  The exact result, filesystem
/// effect and counter changes are pinned by [`link_result`], [`link_fs`]
/// and [`stats_next`].
pub fn create_hard_link(
    fs: &mut Fs,
    src: &Vec<Vec<u8>>,
    dest: &Vec<Vec<u8>>,
    settings: &Settings,
    prompter: &Prompter,
    stats: &mut Stats,
) -> (r: Result<LinkOutcome, EngineError>)
    requires
        old(fs).wf(),
        dest@.len() > 0,
        old(stats).linked < u128::MAX,
        old(stats).skipped < u128::MAX,
        old(stats).overwritten < u128::MAX,
    ensures
        final(fs).wf(),
        r == link_result(
            old(fs)@,
            pview(src@),
            pview(dest@),
            settings.force,
            settings.interactive,
            prompter.says_yes(pview(dest@)),
        ),
        final(fs)@ == link_fs(
            old(fs)@,
            pview(src@),
            pview(dest@),
            settings.force,
            settings.interactive,
            prompter.says_yes(pview(dest@)),
            settings.directory_mode,
        ),
        final(stats).v() == stats_next(
            old(stats).v(),
            r,
            link_overwrote(
                old(fs)@,
                pview(src@),
                pview(dest@),
                settings.force,
                settings.interactive,
                prompter.says_yes(pview(dest@)),
            ),
        ),
{
    let ghost s0 = fs@;
    let ghost sv = pview(src@);
    let ghost dv = pview(dest@);
    let ghost conf = prompter.says_yes(dv);

    match is_already_linked(fs, src, dest) {
        Err(e) => {
            return Err(e);
        },
        Ok(true) => {
            stats.skipped = stats.skipped + 1;
            return Ok(LinkOutcome::AlreadyLinked);
        },
        Ok(false) => {},
    }
    match fs.node_at(dest) {
        Some(dnode) => {
            // a conflict: the destination exists but is another file
            let overwrite = if settings.force {
                true
            } else if settings.interactive {
                prompter.ask(dest)
            } else {
                false
            };
            proof {
                assert(overwrite == conflict_overwrites(settings.force, settings.interactive, conf));
            }
            if !overwrite {
                stats.skipped = stats.skipped + 1;
                return Ok(LinkOutcome::SkippedConflict);
            }
            match dnode {
                FsNode::Dir(_) => Err(EngineError::RemoveFailed),
                FsNode::File(_) => {
                    proof {
                        lemma_wf_remove_file(s0, dv);
                        if sv == dv {
                            assert(already_linked(s0, sv, dv));
                        }
                        lemma_lookup_remove(s0, dv, sv);
                    }
                    fs.remove_entry(dest);
                    stats.overwritten = stats.overwritten + 1;
                    match fs.node_at(src) {
                        Some(FsNode::File(i)) => {
                            proof {
                                lemma_lookup_remove(s0, dv, dv);
                                lemma_lookup_some(s0, dv);
                                let di = choose|di: int|
                                    0 <= di < s0.len() && s0[di].path == dv && s0[di].node
                                        == lookup(s0, dv)->Some_0;
                                assert forall|l: int| 1 <= l < dv.len() implies dir_at(
                                    fs@,
                                    #[trigger] dv.take(l),
                                ) by {
                                    assert(dir_at(s0, s0[di].path.take(l)));
                                    lemma_lookup_remove(s0, dv, dv.take(l));
                                    assert(dv.take(l).len() < dv.len());
                                }
                                lemma_wf_push(fs@, EntryV { path: dv, node: FsNode::File(i) });
                            }
                            let owned = crate::paths::clone_path(dest);
                            proof {
                                assert(pview(owned@) =~= dv);
                            }
                            fs.push_entry(owned, FsNode::File(i));
                            stats.linked = stats.linked + 1;
                            Ok(LinkOutcome::Overwritten)
                        },
                        _ => Err(EngineError::LinkFailed),
                    }
                },
            }
        },
        None => {
            // no conflict: materialize the parent chain, then link
            let mut parent = crate::paths::clone_path(dest);
            parent.pop();
            proof {
                assert(pview(parent@) =~= parent_of(dv));
            }
            match ensure_parent_dir(fs, &parent, settings.directory_mode) {
                Err(e) => Err(e),
                Ok(()) => {
                    proof {
                        if lookup(s0, parent_of(dv)) is None {
                            lemma_ensure_dirs(s0, parent_of(dv), settings.directory_mode);
                        }
                    }
                    let parent_is_dir = if parent.len() == 0 {
                        true
                    } else {
                        match fs.node_at(&parent) {
                            Some(FsNode::Dir(_)) => true,
                            _ => false,
                        }
                    };
                    proof {
                        if parent_of(dv).len() == 0 {
                            lemma_lookup_none(s0, parent_of(dv));
                            assert(forall|j: int|
                                0 <= j < s0.len() ==> (#[trigger] s0[j].path) != parent_of(dv));
                        }
                        if parent_of(dv).len() > 0 && lookup(s0, parent_of(dv)) is Some {
                            assert(fs@ == s0);
                        }
                        if parent_of(dv).len() > 0 && lookup(s0, parent_of(dv)) is None {
                            assert(missing_prefix(s0, parent_of(dv), parent_of(dv))) by {
                                assert(parent_of(dv) == parent_of(dv).take(
                                    parent_of(dv).len() as int,
                                ));
                            }
                            assert(lookup(fs@, parent_of(dv)) == Some(
                                FsNode::Dir(settings.directory_mode),
                            ));
                        }
                        assert(parent_is_dir == !(lookup(s0, parent_of(dv)) matches Some(
                            FsNode::File(_),
                        )));
                    }
                    if !parent_is_dir {
                        return Err(EngineError::LinkFailed);
                    }
                    match fs.node_at(src) {
                        Some(FsNode::File(i)) => {
                            proof {
                                assert(!missing_prefix(s0, parent_of(dv), sv) ==> lookup(fs@, sv)
                                    == lookup(s0, sv));
                                if missing_prefix(s0, parent_of(dv), sv) {
                                    assert(lookup(fs@, sv) == Some(
                                        FsNode::Dir(settings.directory_mode),
                                    ));
                                }
                                assert(lookup(s0, sv) == Some(FsNode::File(i)));
                                assert(lookup(fs@, dv) is None) by {
                                    if lookup(s0, parent_of(dv)) is None {
                                        assert(!missing_prefix(s0, parent_of(dv), dv)) by {
                                            if exists|l: int|
                                                1 <= l <= parent_of(dv).len() && dv == parent_of(
                                                    dv,
                                                ).take(l) {
                                                let l = choose|l: int|
                                                    1 <= l <= parent_of(dv).len() && dv
                                                        == parent_of(dv).take(l);
                                                assert(dv.len() == l);
                                            }
                                        }
                                    }
                                }
                                assert forall|l: int| 1 <= l < dv.len() implies dir_at(
                                    fs@,
                                    #[trigger] dv.take(l),
                                ) by {
                                    assert(dv.take(l) =~= parent_of(dv).take(l));
                                    if l == dv.len() - 1 {
                                        assert(dv.take(l) =~= parent_of(dv));
                                    } else {
                                        if lookup(s0, parent_of(dv)) is None {
                                            if lookup(s0, dv.take(l)) is None {
                                                assert(missing_prefix(
                                                    s0,
                                                    parent_of(dv),
                                                    dv.take(l),
                                                ));
                                            } else {
                                                assert(!blocked(s0, parent_of(dv)));
                                                assert(!(lookup(s0, dv.take(l)) matches Some(
                                                    FsNode::File(_),
                                                )));
                                            }
                                        } else {
                                            lemma_prefix_dirs_from_parent(s0, dv);
                                        }
                                    }
                                }
                                lemma_wf_push(fs@, EntryV { path: dv, node: FsNode::File(i) });
                            }
                            let owned = crate::paths::clone_path(dest);
                            proof {
                                assert(pview(owned@) =~= dv);
                            }
                            fs.push_entry(owned, FsNode::File(i));
                            stats.linked = stats.linked + 1;
                            Ok(LinkOutcome::Linked)
                        },
                        _ => Err(EngineError::LinkFailed),
                    }
                },
            }
        },
    }
}

} // verus!
