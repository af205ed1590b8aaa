use weave::engine::{
    create_hard_link, ensure_parent_dir, is_already_linked, EngineError, LinkOutcome, Prompter,
    Settings, Stats,
};
use weave::fsmodel::{Fs, FsNode};

fn p(s: &str) -> Vec<Vec<u8>> {
    s.split('/').map(|c| c.as_bytes().to_vec()).collect()
}

fn mkdirs(fs: &mut Fs, path: &str, mode: u32) {
    let comps = p(path);
    for i in 1..=comps.len() {
        let pre: Vec<Vec<u8>> = comps[..i].to_vec();
        fs.add_dir(&pre, mode);
    }
}

fn settings(from: &str, to: &str, force: bool, interactive: bool) -> Settings {
    Settings {
        from: p(from),
        to: p(to),
        force,
        interactive,
        directory_mode: 0o755,
        choices: Vec::new(),
    }
}

fn base_fs() -> Fs {
    let mut fs = Fs::new();
    mkdirs(&mut fs, "src/pkg", 0o755);
    assert!(fs.add_file(&p("src/pkg/conf"), 1));
    mkdirs(&mut fs, "dst", 0o755);
    fs
}

#[test]
fn already_linked_is_skipped_without_mutation() {
    let mut fs = base_fs();
    assert!(fs.add_file(&p("dst/conf"), 1));
    let n = fs.entries.len();
    let se = settings("src", "dst", false, false);
    let mut st = Stats::new();
    let r = create_hard_link(
        &mut fs,
        &p("src/pkg/conf"),
        &p("dst/conf"),
        &se,
        &Prompter::declining(),
        &mut st,
    );
    assert_eq!(r, Ok(LinkOutcome::AlreadyLinked));
    assert_eq!(fs.entries.len(), n);
    assert_eq!((st.linked, st.skipped, st.overwritten), (0, 1, 0));
}

#[test]
fn conflict_without_flags_is_skipped_and_untouched() {
    let mut fs = base_fs();
    assert!(fs.add_file(&p("dst/conf"), 2));
    let se = settings("src", "dst", false, false);
    let mut st = Stats::new();
    let r = create_hard_link(
        &mut fs,
        &p("src/pkg/conf"),
        &p("dst/conf"),
        &se,
        &Prompter::declining(),
        &mut st,
    );
    assert_eq!(r, Ok(LinkOutcome::SkippedConflict));
    assert_eq!(fs.node_at(&p("dst/conf")), Some(FsNode::File(2)));
    assert_eq!((st.linked, st.skipped, st.overwritten), (0, 1, 0));
}

#[test]
fn conflict_with_force_is_overwritten_and_relinked() {
    let mut fs = base_fs();
    assert!(fs.add_file(&p("dst/conf"), 2));
    let se = settings("src", "dst", true, false);
    let mut st = Stats::new();
    let r = create_hard_link(
        &mut fs,
        &p("src/pkg/conf"),
        &p("dst/conf"),
        &se,
        &Prompter::declining(),
        &mut st,
    );
    assert_eq!(r, Ok(LinkOutcome::Overwritten));
    assert_eq!(fs.node_at(&p("dst/conf")), Some(FsNode::File(1)));
    assert_eq!((st.linked, st.skipped, st.overwritten), (1, 0, 1));
}

#[test]
fn conflict_interactive_declined_is_skipped() {
    let mut fs = base_fs();
    assert!(fs.add_file(&p("dst/conf"), 2));
    let se = settings("src", "dst", false, true);
    let mut st = Stats::new();
    let r = create_hard_link(
        &mut fs,
        &p("src/pkg/conf"),
        &p("dst/conf"),
        &se,
        &Prompter::declining(),
        &mut st,
    );
    assert_eq!(r, Ok(LinkOutcome::SkippedConflict));
    assert_eq!(fs.node_at(&p("dst/conf")), Some(FsNode::File(2)));
    assert_eq!((st.linked, st.skipped, st.overwritten), (0, 1, 0));
}

#[test]
fn conflict_interactive_confirmed_is_overwritten() {
    let mut fs = base_fs();
    assert!(fs.add_file(&p("dst/conf"), 2));
    let se = settings("src", "dst", false, true);
    let confirming = Prompter { yes: vec![p("dst/conf")] };
    let mut st = Stats::new();
    let r = create_hard_link(
        &mut fs,
        &p("src/pkg/conf"),
        &p("dst/conf"),
        &se,
        &confirming,
        &mut st,
    );
    assert_eq!(r, Ok(LinkOutcome::Overwritten));
    assert_eq!(fs.node_at(&p("dst/conf")), Some(FsNode::File(1)));
    assert_eq!((st.linked, st.skipped, st.overwritten), (1, 0, 1));
}

#[test]
fn linking_creates_every_missing_ancestor_with_the_mode() {
    let mut fs = base_fs();
    let mut se = settings("src", "dst", false, false);
    se.directory_mode = 0o750;
    let mut st = Stats::new();
    let r = create_hard_link(
        &mut fs,
        &p("src/pkg/conf"),
        &p("dst/a/b/c/conf"),
        &se,
        &Prompter::declining(),
        &mut st,
    );
    assert_eq!(r, Ok(LinkOutcome::Linked));
    assert_eq!(fs.node_at(&p("dst/a")), Some(FsNode::Dir(0o750)));
    assert_eq!(fs.node_at(&p("dst/a/b")), Some(FsNode::Dir(0o750)));
    assert_eq!(fs.node_at(&p("dst/a/b/c")), Some(FsNode::Dir(0o750)));
    // the pre-existing level keeps its own mode
    assert_eq!(fs.node_at(&p("dst")), Some(FsNode::Dir(0o755)));
    assert_eq!(fs.node_at(&p("dst/a/b/c/conf")), Some(FsNode::File(1)));
}

#[test]
fn ensure_parent_dir_is_idempotent() {
    let mut fs = Fs::new();
    assert_eq!(ensure_parent_dir(&mut fs, &p("x/y/z"), 0o700), Ok(()));
    let n = fs.entries.len();
    assert_eq!(n, 3);
    assert_eq!(ensure_parent_dir(&mut fs, &p("x/y/z"), 0o700), Ok(()));
    assert_eq!(fs.entries.len(), n);
    assert_eq!(fs.node_at(&p("x/y/z")), Some(FsNode::Dir(0o700)));
}

#[test]
fn ensure_parent_dir_fails_on_a_file_in_the_chain() {
    let mut fs = Fs::new();
    mkdirs(&mut fs, "x", 0o755);
    assert!(fs.add_file(&p("x/y"), 9));
    let n = fs.entries.len();
    assert_eq!(
        ensure_parent_dir(&mut fs, &p("x/y/z"), 0o700),
        Err(EngineError::CreateDirFailed)
    );
    assert_eq!(fs.entries.len(), n);
}

#[test]
fn identity_check_reports_a_vanished_source() {
    let mut fs = Fs::new();
    mkdirs(&mut fs, "dst", 0o755);
    assert!(fs.add_file(&p("dst/conf"), 2));
    assert_eq!(
        is_already_linked(&fs, &p("src/pkg/conf"), &p("dst/conf")),
        Err(EngineError::SourceMissing)
    );
    // with no destination there is nothing to compare against
    assert_eq!(is_already_linked(&fs, &p("src/pkg/conf"), &p("dst/other")), Ok(false));
}

#[test]
fn overwriting_a_directory_conflict_fails() {
    let mut fs = base_fs();
    mkdirs(&mut fs, "dst/conf", 0o755);
    let se = settings("src", "dst", true, false);
    let mut st = Stats::new();
    let r = create_hard_link(
        &mut fs,
        &p("src/pkg/conf"),
        &p("dst/conf"),
        &se,
        &Prompter::declining(),
        &mut st,
    );
    assert_eq!(r, Err(EngineError::RemoveFailed));
    assert_eq!(fs.node_at(&p("dst/conf")), Some(FsNode::Dir(0o755)));
}

#[test]
fn linking_under_a_file_parent_fails() {
    let mut fs = base_fs();
    assert!(fs.add_file(&p("dst/blocker"), 7));
    let se = settings("src", "dst", false, false);
    let mut st = Stats::new();
    let r = create_hard_link(
        &mut fs,
        &p("src/pkg/conf"),
        &p("dst/blocker/conf"),
        &se,
        &Prompter::declining(),
        &mut st,
    );
    assert_eq!(r, Err(EngineError::LinkFailed));
    assert_eq!((st.linked, st.skipped, st.overwritten), (0, 0, 0));
}
