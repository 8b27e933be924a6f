use mmv::moves::{AddError, ConsError, Move};

fn s(x: &str) -> String {
    x.to_string()
}

#[test]
fn distinct_pairs_are_accepted() {
    let mut m = Move::new();
    assert!(m.add(s("/a"), s("/b")).is_ok());
    assert!(m.add(s("/b"), s("/a")).is_ok());
    assert_eq!(m.pairs(), &vec![(s("/a"), s("/b")), (s("/b"), s("/a"))]);
}

#[test]
fn duplicate_source_names_first_destination() {
    let mut m = Move::new();
    assert!(m.add(s("/a"), s("/b")).is_ok());
    match m.add(s("/a"), s("/c")) {
        Err(AddError::DupSrc { src, new, old }) => {
            assert_eq!(src, "/a");
            assert_eq!(new, "/c");
            assert_eq!(old, "/b");
        }
        _ => panic!("expected a duplicate source"),
    }
    assert_eq!(m.pairs().len(), 1);
}

#[test]
fn duplicate_destination_names_first_source() {
    let mut m = Move::new();
    assert!(m.add(s("/x"), s("/z")).is_ok());
    match m.add(s("/y"), s("/z")) {
        Err(AddError::DupDst { dst, new, old }) => {
            assert_eq!(dst, "/z");
            assert_eq!(new, "/y");
            assert_eq!(old, "/x");
        }
        _ => panic!("expected a duplicate destination"),
    }
    assert_eq!(m.pairs().len(), 1);
    // the rejected pair still marks its source as seen
    match m.add(s("/y"), s("/w")) {
        Err(AddError::DupSrc { old, .. }) => assert_eq!(old, "/z"),
        _ => panic!("expected a duplicate source"),
    }
}

#[test]
fn map_paths_maps_every_path() {
    let e: AddError<String> = AddError::DupSrc { src: s("ab"), new: s("c"), old: s("def") };
    match e.map_paths(|p: String| p.len()) {
        AddError::DupSrc { src, new, old } => assert_eq!((src, new, old), (2, 1, 3)),
        _ => panic!("variant changed"),
    }
    let e: AddError<String> = AddError::DupDst { dst: s("a"), new: s("bb"), old: s("ccc") };
    match e.map_paths(|p: String| p.len()) {
        AddError::DupDst { dst, new, old } => assert_eq!((dst, new, old), (1, 2, 3)),
        _ => panic!("variant changed"),
    }
}

#[test]
fn from_iter_without_errors_is_ok() {
    assert!(ConsError::<String>::from_iter(Vec::new()).is_ok());
}

#[test]
fn from_iter_collects_every_duplicate() {
    let errs = vec![
        AddError::DupSrc { src: s("/a"), new: s("/1"), old: s("/2") },
        AddError::DupDst { dst: s("/z"), new: s("/3"), old: s("/4") },
        AddError::DupSrc { src: s("/b"), new: s("/5"), old: s("/6") },
    ];
    let e = ConsError::from_iter(errs).unwrap_err();
    assert!(e.is_err());
    assert_eq!(e.dup_srcs(), &vec![s("/a"), s("/b")]);
    assert_eq!(e.dup_dsts(), &vec![s("/z")]);
    assert_eq!(
        e.describe(),
        "The paths [/a, /b] were listed as sources multiple times and the paths [/z] were listed as destinations multiple times"
    );
}

#[test]
fn describe_only_destinations() {
    let errs = vec![AddError::DupDst { dst: s("/work/z"), new: s("/work/y"), old: s("/work/x") }];
    let e = ConsError::from_iter(errs).unwrap_err();
    assert_eq!(e.describe(), "The paths [/work/z] were listed as destinations multiple times");
}

#[test]
fn extend_appends_in_order() {
    let mut e = ConsError::from_iter(vec![AddError::DupSrc { src: s("/a"), new: s("/b"), old: s("/c") }])
        .unwrap_err();
    e.extend(vec![
        AddError::DupSrc { src: s("/d"), new: s("/e"), old: s("/f") },
        AddError::DupDst { dst: s("/g"), new: s("/h"), old: s("/i") },
    ]);
    assert_eq!(e.dup_srcs(), &vec![s("/a"), s("/d")]);
    assert_eq!(e.dup_dsts(), &vec![s("/g")]);
}

#[test]
fn paths_compare_by_components() {
    let mut m = Move::new();
    assert!(m.add(s("/a"), s("/b")).is_ok());
    assert!(m.add(s("/b"), s("/a")).is_ok());
    assert!(m.add(s("/a/c"), s("/b/c")).is_ok());
    match m.add(s("/a//c/"), s("/z")) {
        Err(AddError::DupSrc { src, new, old }) => {
            assert_eq!(src, "/a//c/");
            assert_eq!(new, "/z");
            assert_eq!(old, "/b/c");
        }
        _ => panic!("expected a duplicate source"),
    }
    match m.add(s("/q"), s("/b//c/.")) {
        Err(AddError::DupDst { dst, new, old }) => {
            assert_eq!(dst, "/b//c/.");
            assert_eq!(new, "/q");
            assert_eq!(old, "/a/c");
        }
        _ => panic!("expected a duplicate destination"),
    }
}
