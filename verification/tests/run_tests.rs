use weave::choices::get_choices;
use weave::engine::{EngineError, Prompter, Settings};
use weave::fsmodel::{Fs, FsNode};
use weave::run::run;
use weave::walk::walk_files;

fn p(s: &str) -> Vec<Vec<u8>> {
    s.split('/').map(|c| c.as_bytes().to_vec()).collect()
}

fn mkdirs(fs: &mut Fs, path: &str, mode: u32) {
    let comps = p(path);
    for i in 1..=comps.len() {
        let pre: Vec<Vec<u8>> = comps[..i].to_vec();
        fs.add_dir(&pre, mode);
    }
}

fn settings(from: &str, to: &str, force: bool, interactive: bool, choices: &[&str]) -> Settings {
    Settings {
        from: p(from),
        to: p(to),
        force,
        interactive,
        directory_mode: 0o755,
        choices: choices.iter().map(|c| c.as_bytes().to_vec()).collect(),
    }
}

#[test]
fn default_choices_are_the_subdirectories_only() {
    let mut fs = Fs::new();
    mkdirs(&mut fs, "src/a", 0o755);
    mkdirs(&mut fs, "src/b", 0o755);
    assert!(fs.add_file(&p("src/c"), 3));
    let se = settings("src", "dst", false, false, &[]);
    let cs = get_choices(&fs, &se).unwrap();
    assert_eq!(cs, vec![b"a".to_vec(), b"b".to_vec()]);
}

#[test]
fn no_subdirectories_means_no_choices() {
    let mut fs = Fs::new();
    mkdirs(&mut fs, "src", 0o755);
    assert!(fs.add_file(&p("src/c"), 3));
    let se = settings("src", "dst", false, false, &[]);
    assert_eq!(get_choices(&fs, &se), Err(EngineError::NoChoices));
}

#[test]
fn unreadable_source_root_fails_resolution() {
    let fs = Fs::new();
    let se = settings("src", "dst", false, false, &[]);
    assert_eq!(get_choices(&fs, &se), Err(EngineError::SourceUnreadable));
}

#[test]
fn explicit_choices_are_returned_verbatim_without_reading() {
    // the source root does not even exist, yet resolution succeeds
    let fs = Fs::new();
    let se = settings("src", "dst", false, false, &["b", "a", "a"]);
    let cs = get_choices(&fs, &se).unwrap();
    assert_eq!(cs, vec![b"b".to_vec(), b"a".to_vec(), b"a".to_vec()]);
}

#[test]
fn a_non_directory_choice_is_tolerated() {
    let mut fs = Fs::new();
    mkdirs(&mut fs, "src/pkgB", 0o755);
    assert!(fs.add_file(&p("src/notadir"), 1));
    assert!(fs.add_file(&p("src/pkgB/conf"), 2));
    mkdirs(&mut fs, "dst", 0o755);
    let se = settings("src", "dst", false, false, &["notadir", "missing", "pkgB"]);
    let st = run(&mut fs, &se, &Prompter::declining()).unwrap();
    assert_eq!((st.linked, st.skipped, st.overwritten), (1, 0, 0));
    assert_eq!(fs.node_at(&p("dst/conf")), Some(FsNode::File(2)));
}

#[test]
fn relative_paths_are_kept_under_the_destination() {
    let mut fs = Fs::new();
    mkdirs(&mut fs, "source/pkgA/sub/dir", 0o755);
    assert!(fs.add_file(&p("source/pkgA/sub/dir/file.txt"), 11));
    mkdirs(&mut fs, "destination/quite/deep", 0o755);
    let se = settings("source", "destination/quite/deep", false, false, &["pkgA"]);
    let st = run(&mut fs, &se, &Prompter::declining()).unwrap();
    assert_eq!(st.linked, 1);
    assert_eq!(
        fs.node_at(&p("destination/quite/deep/sub/dir/file.txt")),
        Some(FsNode::File(11))
    );
}

#[test]
fn walker_yields_files_with_relative_paths() {
    let mut fs = Fs::new();
    mkdirs(&mut fs, "src/pkgA/sub/dir", 0o755);
    assert!(fs.add_file(&p("src/pkgA/sub/dir/file.txt"), 11));
    assert!(fs.add_file(&p("src/pkgA/top"), 12));
    let tasks = walk_files(&fs, &p("src/pkgA"));
    assert_eq!(tasks.len(), 2);
    assert_eq!(tasks[0].source, p("src/pkgA/sub/dir/file.txt"));
    assert_eq!(tasks[0].rel, p("sub/dir/file.txt"));
    assert_eq!(tasks[1].source, p("src/pkgA/top"));
    assert_eq!(tasks[1].rel, p("top"));
}

#[test]
fn a_second_run_changes_nothing() {
    let mut fs = Fs::new();
    mkdirs(&mut fs, "src/a", 0o755);
    mkdirs(&mut fs, "src/b/deep", 0o755);
    assert!(fs.add_file(&p("src/a/one"), 1));
    assert!(fs.add_file(&p("src/b/deep/two"), 2));
    mkdirs(&mut fs, "dst", 0o755);
    let se = settings("src", "dst", false, false, &[]);

    let first = run(&mut fs, &se, &Prompter::declining()).unwrap();
    assert_eq!((first.linked, first.skipped, first.overwritten), (2, 0, 0));
    let n = fs.entries.len();

    let second = run(&mut fs, &se, &Prompter::declining()).unwrap();
    assert_eq!((second.linked, second.skipped, second.overwritten), (0, 2, 0));
    assert_eq!(fs.entries.len(), n);
}

#[test]
fn a_second_run_under_force_changes_nothing_either() {
    let mut fs = Fs::new();
    mkdirs(&mut fs, "src/a", 0o755);
    assert!(fs.add_file(&p("src/a/one"), 1));
    mkdirs(&mut fs, "dst", 0o755);
    assert!(fs.add_file(&p("dst/one"), 9));
    let se = settings("src", "dst", true, false, &[]);

    let first = run(&mut fs, &se, &Prompter::declining()).unwrap();
    assert_eq!((first.linked, first.skipped, first.overwritten), (1, 0, 1));
    let n = fs.entries.len();

    let second = run(&mut fs, &se, &Prompter::declining()).unwrap();
    assert_eq!((second.linked, second.skipped, second.overwritten), (0, 1, 0));
    assert_eq!(fs.entries.len(), n);
}

#[test]
fn interactive_run_overwrites_only_what_was_confirmed() {
    let mut fs = Fs::new();
    mkdirs(&mut fs, "src/a", 0o755);
    assert!(fs.add_file(&p("src/a/one"), 1));
    assert!(fs.add_file(&p("src/a/two"), 2));
    mkdirs(&mut fs, "dst", 0o755);
    assert!(fs.add_file(&p("dst/one"), 8));
    assert!(fs.add_file(&p("dst/two"), 9));
    let se = settings("src", "dst", false, true, &[]);
    let confirming = Prompter { yes: vec![p("dst/two")] };

    let st = run(&mut fs, &se, &confirming).unwrap();
    assert_eq!((st.linked, st.skipped, st.overwritten), (1, 1, 1));
    assert_eq!(fs.node_at(&p("dst/one")), Some(FsNode::File(8)));
    assert_eq!(fs.node_at(&p("dst/two")), Some(FsNode::File(2)));
}

#[test]
fn a_fatal_error_aborts_the_run() {
    let mut fs = Fs::new();
    mkdirs(&mut fs, "src/a", 0o755);
    assert!(fs.add_file(&p("src/a/one"), 1));
    mkdirs(&mut fs, "dst/one", 0o755);
    // the destination of the only task is an existing directory: removal
    // under force fails, which is fatal
    let se = settings("src", "dst", true, false, &[]);
    assert!(matches!(
        run(&mut fs, &se, &Prompter::declining()),
        Err(EngineError::RemoveFailed)
    ));
}
