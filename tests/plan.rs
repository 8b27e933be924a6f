use mmv::plan::{build, BuildError, RenameSet};
use mmv::schedule::{action_line, backup_steps, fallback_steps, Op, PathKind, Step};

fn strings(xs: &[&str]) -> Vec<String> {
    xs.iter().map(|x| x.to_string()).collect()
}

fn plan(srcs: &[&str], dsts: &[&str]) -> RenameSet {
    match build("/work", "/tmp/s", &strings(srcs), &strings(dsts)) {
        Ok(set) => set,
        Err(_) => panic!("planning failed"),
    }
}

fn ops(set: &RenameSet, copy: bool) -> Vec<(String, String, bool)> {
    set.operations(copy).into_iter().map(|o| (o.from, o.to, o.keep_source)).collect()
}

fn op(from: &str, to: &str, keep: bool) -> (String, String, bool) {
    (from.to_string(), to.to_string(), keep)
}

fn srcs_in_order(set: &RenameSet) -> Vec<String> {
    set.pairs().iter().map(|p| p.src.clone()).collect()
}

#[test]
fn swap_two_files() {
    let set = plan(&["a", "b"], &["b", "a"]);
    assert_eq!(
        ops(&set, false),
        vec![
            op("/work/a", "/tmp/s/0", false),
            op("/work/b", "/tmp/s/1", false),
            op("/tmp/s/1", "/work/a", false),
            op("/tmp/s/0", "/work/b", false),
        ]
    );
}

#[test]
fn rename_directory_holding_a_source() {
    let set = plan(&["d/f", "d"], &["d/g", "e"]);
    assert_eq!(srcs_in_order(&set), strings(&["/work/d/f", "/work/d"]));
    assert_eq!(
        ops(&set, false),
        vec![
            op("/work/d/f", "/tmp/s/0", false),
            op("/work/d", "/tmp/s/1", false),
            op("/tmp/s/1", "/work/e", false),
            op("/tmp/s/0", "/work/d/g", false),
        ]
    );
}

#[test]
fn nested_sources_go_deepest_first() {
    let set = plan(&["a", "a/b/c", "a/b"], &["x", "y", "z"]);
    assert_eq!(srcs_in_order(&set), strings(&["/work/a/b/c", "/work/a/b", "/work/a"]));
}

#[test]
fn equal_depths_keep_input_order() {
    let set = plan(&["c", "b", "a"], &["x", "y", "z"]);
    assert_eq!(srcs_in_order(&set), strings(&["/work/c", "/work/b", "/work/a"]));
}

#[test]
fn enclosing_destination_placed_first_when_its_source_is_shallower() {
    let set = plan(&["r", "p/q"], &["x", "x/y"]);
    let all = ops(&set, false);
    let pos_x = all.iter().position(|o| o.1 == "/work/x").unwrap();
    let pos_xy = all.iter().position(|o| o.1 == "/work/x/y").unwrap();
    assert!(pos_x < pos_xy);
}

#[test]
fn scratch_paths_avoid_sources_and_destinations() {
    let set = plan(&["a", "b", "c/d"], &["b", "c", "a"]);
    for p in set.pairs() {
        assert!(p.scratch.starts_with("/tmp/s/"));
        for q in set.pairs() {
            assert_ne!(p.scratch, q.src);
            assert_ne!(p.scratch, q.dst);
            assert!(!q.src.starts_with(&format!("{}/", p.scratch)));
            assert!(!q.dst.starts_with(&format!("{}/", p.scratch)));
        }
    }
}

#[test]
fn duplicate_destination_is_rejected() {
    match build("/work", "/tmp/s", &strings(&["x", "y"]), &strings(&["z", "z"])) {
        Err(BuildError::Duplicates(e)) => {
            assert!(e.dup_srcs().is_empty());
            assert_eq!(e.dup_dsts(), &strings(&["/work/z"]));
        }
        _ => panic!("expected duplicates"),
    }
}

#[test]
fn duplicate_source_is_rejected_after_normalizing() {
    match build("/work", "/tmp/s", &strings(&["a", "./a", "b", "c"]), &strings(&["x", "y", "q", "q"])) {
        Err(BuildError::Duplicates(e)) => {
            assert_eq!(e.dup_srcs(), &strings(&["/work/a"]));
            assert_eq!(e.dup_dsts(), &strings(&["/work/q"]));
        }
        _ => panic!("expected duplicates"),
    }
}

#[test]
fn different_counts_are_rejected() {
    assert!(matches!(
        build("/work", "/tmp/s", &strings(&["a", "b"]), &strings(&["c"])),
        Err(BuildError::SourceDestinationCount)
    ));
}

#[test]
fn scratch_inside_a_source_is_rejected() {
    assert!(matches!(
        build("/work", "/work/a/tmp", &strings(&["a"]), &strings(&["b"])),
        Err(BuildError::ScratchConflict)
    ));
    assert!(matches!(
        build("/work", "/", &strings(&["a"]), &strings(&["b"])),
        Err(BuildError::ScratchConflict)
    ));
}

#[test]
fn empty_batch_plans_nothing() {
    let set = plan(&[], &[]);
    assert_eq!(set.len(), 0);
    assert!(set.operations(false).is_empty());
}

#[test]
fn copy_mode_skips_phase_one() {
    let set = plan(&["a", "b"], &["b", "a"]);
    assert_eq!(
        ops(&set, true),
        vec![op("/work/b", "/work/a", true), op("/work/a", "/work/b", true)]
    );
}

#[test]
fn dry_run_report() {
    let set = plan(&["a"], &["b"]);
    assert_eq!(set.report_lines(false), vec!["renamed '/work/a' -> '/work/b'".to_string()]);
    assert_eq!(set.report_lines(true), vec!["copied '/work/a' -> '/work/b'".to_string()]);
    assert_eq!(action_line(false, "/x", "/y"), "renamed '/x' -> '/y'");
}

#[test]
fn fallback_for_files_and_directories() {
    let mv = Op { from: "/a".to_string(), to: "/b".to_string(), keep_source: false };
    assert_eq!(
        fallback_steps(&mv, PathKind::File),
        vec![Step::CopyFile("/a".to_string(), "/b".to_string()), Step::RemoveFile("/a".to_string())]
    );
    assert_eq!(
        fallback_steps(&mv, PathKind::Directory),
        vec![Step::CreateDir("/b".to_string()), Step::RemoveDir("/a".to_string())]
    );
    let cp = Op { from: "/a".to_string(), to: "/b".to_string(), keep_source: true };
    assert_eq!(fallback_steps(&cp, PathKind::File), vec![Step::CopyFile("/a".to_string(), "/b".to_string())]);
    assert_eq!(fallback_steps(&cp, PathKind::Directory), vec![Step::CreateDir("/b".to_string())]);
}

#[test]
fn backup_mirrors_absolute_paths() {
    assert_eq!(
        backup_steps("/cache/mmv/17", "/work/a", PathKind::File),
        vec![
            Step::CreateDirAll("/cache/mmv/17/work".to_string()),
            Step::CopyFile("/work/a".to_string(), "/cache/mmv/17/work/a".to_string()),
        ]
    );
    assert_eq!(
        backup_steps("/cache/mmv/17", "/work/d", PathKind::Directory),
        vec![Step::CreateDirAll("/cache/mmv/17/work/d".to_string())]
    );
}

#[test]
fn scratch_names_count_in_decimal() {
    let names: Vec<String> = (0..12).map(|i| format!("f{i}")).collect();
    let targets: Vec<String> = (0..12).map(|i| format!("g{i}")).collect();
    let set = match build("/work", "/tmp/s", &names, &targets) {
        Ok(set) => set,
        Err(_) => panic!("planning failed"),
    };
    let last = &set.pairs()[11];
    assert_eq!(last.src, "/work/f11");
    assert_eq!(last.scratch, "/tmp/s/11");
    assert_eq!(mmv::scratch::decimal_string(0), "0");
    assert_eq!(mmv::scratch::decimal_string(1907), "1907");
}

#[test]
fn enclosing_destination_placed_first_when_its_source_is_deeper() {
    let set = match build("/", "/tmp/s", &strings(&["/y/z", "/x"]), &strings(&["/a", "/a/b"])) {
        Ok(set) => set,
        Err(_) => panic!("planning failed"),
    };
    let all = ops(&set, false);
    assert_eq!(
        all,
        vec![
            op("/y/z", "/tmp/s/0", false),
            op("/x", "/tmp/s/1", false),
            op("/tmp/s/0", "/a", false),
            op("/tmp/s/1", "/a/b", false),
        ]
    );
    assert_eq!(
        set.report_lines(false),
        vec!["renamed '/y/z' -> '/a'".to_string(), "renamed '/x' -> '/a/b'".to_string()]
    );
    let copied = ops(&set, true);
    assert_eq!(copied, vec![op("/y/z", "/a", true), op("/x", "/a/b", true)]);
}

#[test]
fn phase_two_goes_shallowest_destination_first() {
    let set = plan(&["a", "b", "c"], &["x/y/z", "x", "x/y"]);
    let all = ops(&set, false);
    let dsts: Vec<String> = all[3..].iter().map(|o| o.1.clone()).collect();
    assert_eq!(dsts, strings(&["/work/x", "/work/x/y", "/work/x/y/z"]));
}
