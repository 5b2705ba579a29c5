use iphone_organizer::lister::{DirEntry, TreeLister};

fn dir(path: &str) -> DirEntry {
    DirEntry { path: String::from(path), is_dir: true }
}

fn file(path: &str) -> DirEntry {
    DirEntry { path: String::from(path), is_dir: false }
}

#[test]
fn lister_walks_depth_first() {
    let mut lister = TreeLister::new(String::from("mockSOURCE_02"), true);

    assert_eq!(lister.next_dir(), Some(String::from("mockSOURCE_02")));
    lister.supply(vec![dir("mockSOURCE_02/202211__"), dir("mockSOURCE_02/202212__")]);

    // The first subdirectory's subtree comes before its sibling.
    assert_eq!(lister.next_dir(), Some(String::from("mockSOURCE_02/202211__")));
    lister.supply(vec![file("mockSOURCE_02/202211__/IMG_8001.JPG")]);

    assert_eq!(lister.next_dir(), Some(String::from("mockSOURCE_02/202212__")));
    lister.supply(vec![
        file("mockSOURCE_02/202212__/IMG_8003.JPG"),
        file("mockSOURCE_02/202212__/IMG_8004.JPG"),
    ]);

    assert_eq!(lister.next_dir(), None);
    let list = lister.finish();
    let expected: Vec<String> = [
        "mockSOURCE_02",
        "mockSOURCE_02/202211__",
        "mockSOURCE_02/202211__/IMG_8001.JPG",
        "mockSOURCE_02/202212__",
        "mockSOURCE_02/202212__/IMG_8003.JPG",
        "mockSOURCE_02/202212__/IMG_8004.JPG",
    ]
        .iter()
        .map(|p| String::from(*p))
        .collect();
    assert_eq!(list.paths(), &expected);
}

#[test]
fn lister_handles_a_plain_file_root() {
    let lister = TreeLister::new(String::from("mockSOURCE_01"), false);
    assert_eq!(lister.next_dir(), None);
    let list = lister.finish();
    assert_eq!(list.paths(), &vec![String::from("mockSOURCE_01")]);
}

#[test]
fn lister_handles_an_empty_directory() {
    let mut lister = TreeLister::new(String::from("mockSOURCE_01"), true);
    assert_eq!(lister.next_dir(), Some(String::from("mockSOURCE_01")));
    lister.supply(Vec::new());
    assert_eq!(lister.next_dir(), None);
    let list = lister.finish();
    assert_eq!(list.paths(), &vec![String::from("mockSOURCE_01")]);
}

#[test]
fn lister_descends_nested_directories() {
    let mut lister = TreeLister::new(String::from("root"), true);
    assert_eq!(lister.next_dir(), Some(String::from("root")));
    lister.supply(vec![dir("root/a"), file("root/z.txt")]);

    assert_eq!(lister.next_dir(), Some(String::from("root/a")));
    lister.supply(vec![dir("root/a/b")]);

    assert_eq!(lister.next_dir(), Some(String::from("root/a/b")));
    lister.supply(vec![file("root/a/b/deep.txt")]);

    assert_eq!(lister.next_dir(), None);
    let list = lister.finish();
    let expected: Vec<String> = ["root", "root/a", "root/a/b", "root/a/b/deep.txt", "root/z.txt"]
        .iter()
        .map(|p| String::from(*p))
        .collect();
    assert_eq!(list.paths(), &expected);
}
