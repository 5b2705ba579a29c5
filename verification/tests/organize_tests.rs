use iphone_organizer::file_ops::{organize, should_copy, FileList};
use iphone_organizer::paths::{transform_defined, transform_path};

fn mock_source_paths() -> Vec<String> {
    vec![
        String::from("mockSOURCE_INTEGRATION_01"),
        String::from("mockSOURCE_INTEGRATION_01/202211__"),
        String::from("mockSOURCE_INTEGRATION_01/202211__/IMG_0001.JPG"),
        String::from("mockSOURCE_INTEGRATION_01/202211__/IMG_0002.JPG"),
        String::from("mockSOURCE_INTEGRATION_01/202211__/IMG_0002.AAE"),
        String::from("mockSOURCE_INTEGRATION_01/202212__"),
        String::from("mockSOURCE_INTEGRATION_01/202212__/IMG_0003.JPG"),
        String::from("mockSOURCE_INTEGRATION_01/202212__/IMG_0004.JPG"),
    ]
}

#[test]
fn transform_splits_date_directory() {
    let (path, file_like) = transform_path(
        "mockSOURCE_03/202211__/IMG_8001.JPG",
        "mockSOURCE_03",
        "mockDESTINATION_03",
    );
    assert_eq!(path, String::from("mockDESTINATION_03/2022/11/IMG_8001.jpg"));
    assert!(file_like);

    let (dir, dir_file_like) = transform_path(
        "mockSOURCE_03/202212__",
        "mockSOURCE_03",
        "mockDESTINATION_03",
    );
    assert_eq!(dir, String::from("mockDESTINATION_03/2022/12"));
    assert!(!dir_file_like);
}

#[test]
fn transform_keeps_short_paths_whole() {
    // Short enough that no date segment is assumed: only the extension changes.
    let (path, file_like) = transform_path("SRC/x.JP", "SRC", "DESTDIR");
    assert_eq!(path, String::from("DESTDIR/x.jp"));
    assert!(file_like);

    let (root, root_file_like) = transform_path("SRC", "SRC", "DESTDIR");
    assert_eq!(root, String::from("DESTDIR"));
    assert!(!root_file_like);
}

#[test]
fn transform_defined_flags_the_splice_window() {
    // The rewritten path is over-length but too short to carry a full
    // eight-character date segment: the fixed-offset split has nowhere to
    // stand, and the transformer refuses the path.
    assert!(!transform_defined("SRC/ab.TXT", "SRC", "DESTDIR"));
    assert!(transform_defined("SRC/x.JP", "SRC", "DESTDIR"));
    assert!(transform_defined(
        "mockSOURCE_03/202211__/IMG_8001.JPG",
        "mockSOURCE_03",
        "mockDESTINATION_03",
    ));
}

#[test]
fn organize_plans_the_whole_tree() {
    let mut list = FileList::from_paths(mock_source_paths());
    assert_eq!(list.len(), mock_source_paths().len());
    let plan = organize(
        &mut list,
        false,
        "mockSOURCE_INTEGRATION_01",
        "mockDESTINATION_INTEGRATION_01",
    );

    assert!(!plan.override_present);
    let expected = vec![
        ("mockDESTINATION_INTEGRATION_01", false, false),
        ("mockDESTINATION_INTEGRATION_01/2022/11", false, false),
        ("mockDESTINATION_INTEGRATION_01/2022/11/IMG_0001.jpg", true, false),
        ("mockDESTINATION_INTEGRATION_01/2022/11/IMG_0002.jpg", true, false),
        ("mockDESTINATION_INTEGRATION_01/2022/11/IMG_0002.aae", true, true),
        ("mockDESTINATION_INTEGRATION_01/2022/12", false, false),
        ("mockDESTINATION_INTEGRATION_01/2022/12/IMG_0003.jpg", true, false),
        ("mockDESTINATION_INTEGRATION_01/2022/12/IMG_0004.jpg", true, false),
    ];
    assert_eq!(plan.steps.len(), expected.len());
    for (step, (to, file_like, sidecar)) in plan.steps.iter().zip(expected.iter()) {
        assert_eq!(step.to.as_str(), *to);
        assert_eq!(step.file_like, *file_like);
        assert_eq!(step.sidecar, *sidecar);
    }
    // The plan reads each copy from the path the entry had in the source.
    assert_eq!(
        plan.steps[2].from,
        String::from("mockSOURCE_INTEGRATION_01/202211__/IMG_0001.JPG")
    );
    // The list itself now holds the destination paths.
    let rewritten: Vec<String> = expected.iter().map(|e| String::from(e.0)).collect();
    assert_eq!(list.paths(), &rewritten);
}

#[test]
fn organize_lays_out_the_date_hierarchy() {
    let mut list = FileList::from_paths(vec![
        String::from("SOURCE"),
        String::from("SOURCE/202211__"),
        String::from("SOURCE/202211__/IMG_0001.JPG"),
        String::from("SOURCE/202211__/IMG_0002.JPG"),
        String::from("SOURCE/202212__"),
        String::from("SOURCE/202212__/IMG_0003.JPG"),
    ]);
    let plan = organize(&mut list, false, "SOURCE", "ROOT");

    let copies: Vec<String> = plan
        .steps
        .iter()
        .filter(|step| step.file_like)
        .map(|step| step.to.clone())
        .collect();
    assert_eq!(
        copies,
        vec![
            String::from("ROOT/2022/11/IMG_0001.jpg"),
            String::from("ROOT/2022/11/IMG_0002.jpg"),
            String::from("ROOT/2022/12/IMG_0003.jpg"),
        ]
    );
}

#[test]
fn organize_twice_plans_the_same() {
    let mut first = FileList::from_paths(mock_source_paths());
    let mut second = FileList::from_paths(mock_source_paths());
    let plan1 = organize(
        &mut first,
        false,
        "mockSOURCE_INTEGRATION_01",
        "mockDESTINATION_INTEGRATION_01",
    );
    let plan2 = organize(
        &mut second,
        false,
        "mockSOURCE_INTEGRATION_01",
        "mockDESTINATION_INTEGRATION_01",
    );
    assert_eq!(plan1.steps.len(), plan2.steps.len());
    for (a, b) in plan1.steps.iter().zip(plan2.steps.iter()) {
        assert_eq!(a.to, b.to);
        assert_eq!(a.from, b.from);
        assert_eq!(a.file_like, b.file_like);
        assert_eq!(a.sidecar, b.sidecar);
    }
    // With overriding off, a file already present is never copied again.
    for step in plan2.steps.iter() {
        if step.file_like {
            assert!(!should_copy(plan2.override_present, true));
        }
    }
}

#[test]
fn transform_classifies_extension_edge_cases() {
    // A leading dot still marks an extension: the name is all extension.
    let (hidden, hidden_file_like) =
        transform_path("SOURCE/202211__/.hidden", "SOURCE", "TARGET");
    assert_eq!(hidden, String::from("TARGET/2022/11/.hidden"));
    assert!(hidden_file_like);

    // A trailing dot leaves the extension empty: directory-like.
    let (trailing, trailing_file_like) =
        transform_path("SOURCE/202211__/name.", "SOURCE", "TARGET");
    assert_eq!(trailing, String::from("TARGET/2022/11/name."));
    assert!(!trailing_file_like);

    // Only the extension is lowercased, never the rest of the name.
    let (mixed, _) = transform_path("SOURCE/202211__/IMG_JPG.JPG", "SOURCE", "TARGET");
    assert_eq!(mixed, String::from("TARGET/2022/11/IMG_JPG.jpg"));
}

#[test]
fn should_copy_honors_the_override_policy() {
    // A pre-existing destination file is replaced only when overriding is on.
    assert!(should_copy(true, true));
    assert!(should_copy(true, false));
    assert!(!should_copy(false, true));
    assert!(should_copy(false, false));
}
