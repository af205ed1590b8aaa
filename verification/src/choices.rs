//! The choice resolver: which packages a run processes.

use vstd::prelude::*;

use crate::engine::{EngineError, Settings, SettingsV};
use crate::fsmodel::{lookup, EntryV, Fs, FsNode};
use crate::paths::{clone_name, clone_path, is_strictly_under, pview};

verus! {

/// Is this entry a directory immediately beneath `from`?
pub open spec fn is_choice_entry(e: EntryV, from: Seq<Seq<u8>>) -> bool {
    e.node matches FsNode::Dir(_) && e.path.len() == from.len() + 1 && e.path.take(
        from.len() as int,
    ) == from
}

/// The names of every directory immediately beneath `from`, in entry order.
pub open spec fn choices_of(s: Seq<EntryV>, from: Seq<Seq<u8>>) -> Seq<Seq<u8>>
    decreases s.len(),
{
    if s.len() == 0 {
        Seq::empty()
    } else {
        choices_of(s.drop_last(), from) + if is_choice_entry(s.last(), from) {
            seq![s.last().path.last()]
        } else {
            Seq::empty()
        }
    }
}

/// Can `p` be read as a directory (the root, or a present directory)?
pub open spec fn readable_dir(s: Seq<EntryV>, p: Seq<Seq<u8>>) -> bool {
    p.len() == 0 || lookup(s, p) matches Some(FsNode::Dir(_))
}

/// What choice resolution returns: the explicit choices verbatim when any
/// were given (without touching the filesystem); otherwise every directory
/// immediately beneath the source root — failing when the root cannot be
/// read, or when nothing at all was chosen.
pub open spec fn choices_spec(s: Seq<EntryV>, sv: SettingsV) -> Result<Seq<Seq<u8>>, EngineError> {
    if sv.choices.len() > 0 {
        Ok(sv.choices)
    } else if !readable_dir(s, sv.from) {
        Err(EngineError::SourceUnreadable)
    } else if choices_of(s, sv.from).len() == 0 {
        Err(EngineError::NoChoices)
    } else {
        Ok(choices_of(s, sv.from))
    }
}

/// Resolves the choices for one run, as [`choices_spec`] states.
pub fn get_choices(fs: &Fs, settings: &Settings) -> (r: Result<Vec<Vec<u8>>, EngineError>)
    ensures
        r is Ok <==> choices_spec(fs@, settings.v()) is Ok,
        r matches Ok(v) ==> pview(v@) == choices_spec(fs@, settings.v())->Ok_0,
        r matches Err(e) ==> Err::<Seq<Seq<u8>>, EngineError>(e) == choices_spec(
            fs@,
            settings.v(),
        ),
{
    if settings.choices.len() > 0 {
        return Ok(clone_path(&settings.choices));
    }
    if settings.from.len() > 0 {
        match fs.node_at(&settings.from) {
            Some(FsNode::Dir(_)) => {},
            _ => {
                return Err(EngineError::SourceUnreadable);
            },
        }
    }
    let ghost fromv = pview(settings.from@);
    let mut out: Vec<Vec<u8>> = Vec::new();
    let mut i: usize = 0;
    while i < fs.entries.len()
        invariant
            i <= fs.entries@.len(),
            pview(out@) == choices_of(fs@.take(i as int), fromv),
            fromv == pview(settings.from@),
        decreases fs.entries@.len() - i,
    {
        proof {
            assert(fs@[i as int] == fs.entries@[i as int].v());
            assert(fs@.take(i + 1).drop_last() =~= fs@.take(i as int));
            assert(fs@.take(i + 1).last() == fs@[i as int]);
        }
        let e = &fs.entries[i];
        let is_dir = match e.node {
            FsNode::Dir(_) => true,
            _ => false,
        };
        if is_dir && e.path.len() >= 1 && e.path.len() - 1 == settings.from.len()
            && is_strictly_under(
            &settings.from,
            &e.path,
        ) {
            out.push(clone_name(&e.path[e.path.len() - 1]));
            proof {
                assert(is_choice_entry(fs@[i as int], fromv));
                assert(pview(out@) =~= choices_of(fs@.take(i + 1), fromv));
            }
        } else {
            proof {
                assert(!is_choice_entry(fs@[i as int], fromv));
                assert(pview(out@) =~= choices_of(fs@.take(i + 1), fromv));
            }
        }
        i += 1;
    }
    proof {
        assert(fs@.take(fs@.len() as int) =~= fs@);
    }
    if out.len() == 0 {
        return Err(EngineError::NoChoices);
    }
    Ok(out)
}

} // verus!
