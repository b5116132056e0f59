use mesh_scan::path::join;
use mesh_scan::scanner::{Entry, Listing, Scanner, Step};
use mesh_scan::scan::{recursive_scan, scan_dir_for_meshes, MESH_EXTENSION};
use mesh_scan::tree::{Child, Tree};

fn file(name: &str) -> Child<String> {
    Child::Entry { name: name.to_string(), tree: Tree::Other }
}

fn dir(name: &str, children: Vec<Child<String>>) -> Child<String> {
    Child::Entry { name: name.to_string(), tree: Tree::Directory(children) }
}

fn locked(name: &str, why: &str) -> Child<String> {
    Child::Entry { name: name.to_string(), tree: Tree::Unreadable(why.to_string()) }
}

fn failed(why: &str) -> Child<String> {
    Child::Failed(why.to_string())
}

/// A model directory: one mesh under `meshes`, and files of other kinds around it.
fn model() -> Tree<String> {
    Tree::Directory(vec![
        file("model.config"),
        dir("materials", vec![dir("textures", vec![file("texture.png")])]),
        dir("meshes", vec![file("test.dae")]),
        file("model.sdf"),
    ])
}

/// A directory of models with meshes at several depths.
fn library() -> Tree<String> {
    Tree::Directory(vec![
        file("index.dae"),
        dir(
            "robot",
            vec![
                file("robot.sdf"),
                dir("meshes", vec![file("arm.dae"), file("arm.stl"), file("base.dae")]),
                dir("empty", vec![]),
            ],
        ),
        file("notes.txt"),
        dir("table", vec![dir("meshes", vec![dir("lods", vec![file("table_low.dae")])])]),
        file("last.dae"),
    ])
}

/// The same directory of models, enumerated in another order at every level.
fn library_in_another_order() -> Tree<String> {
    Tree::Directory(vec![
        file("last.dae"),
        dir("table", vec![dir("meshes", vec![dir("lods", vec![file("table_low.dae")])])]),
        file("notes.txt"),
        dir(
            "robot",
            vec![
                dir("empty", vec![]),
                dir("meshes", vec![file("base.dae"), file("arm.stl"), file("arm.dae")]),
                file("robot.sdf"),
            ],
        ),
        file("index.dae"),
    ])
}

fn paths(list: &[&str]) -> Vec<String> {
    list.iter().map(|path| path.to_string()).collect()
}

fn sorted(mut list: Vec<String>) -> Vec<String> {
    list.sort();
    list
}

/// What lies at `path`, which is `at` or below it, where `tree` lies at `at`.
fn look_up<'a>(tree: &'a Tree<String>, at: &str, path: &str) -> Option<&'a Tree<String>> {
    if at == path {
        return Some(tree);
    }
    if let Tree::Directory(children) = tree {
        for child in children {
            if let Child::Entry { name, tree } = child {
                if let Some(found) = look_up(tree, &join(at, name), path) {
                    return Some(found);
                }
            }
        }
    }
    None
}

/// What enumerating the entries of `tree` yields.
fn enumerate(tree: &Tree<String>) -> Listing<String> {
    match tree {
        Tree::Other => Listing::NotADirectory,
        Tree::Unreadable(why) => Listing::Unreadable(why.clone()),
        Tree::Directory(children) => Listing::Entries(
            children
                .iter()
                .map(|child| match child {
                    Child::Entry { name, tree } => {
                        Ok(Entry { name: name.clone(), is_dir: !matches!(tree, Tree::Other) })
                    }
                    Child::Failed(why) => Err(why.clone()),
                })
                .collect(),
        ),
    }
}

/// Runs a scan step by step, answering each request from `tree`, which lies at `root`.
fn scan_by_steps(root: &str, tree: &Tree<String>, target: &str) -> Result<Vec<String>, String> {
    let mut scanner = Scanner::start(root, target, Vec::new());
    loop {
        let listing = match look_up(tree, root, scanner.directory()) {
            Some(found) => enumerate(found),
            None => panic!("the scan asked for {:?}", scanner.directory()),
        };
        match scanner.feed(listing) {
            Step::List(next) => scanner = next,
            Step::Done(result) => return result,
        }
    }
}

#[test]
fn it_returns_meshes() {
    let dir = &join(&join("tests", "mesh_update"), "test");
    let tree = model();
    let results = match scan_dir_for_meshes(dir, &tree) {
        Ok(mesh_list) => mesh_list,
        Err(error) => panic!("Failed to scan all directories for meshes: {:?}", error),
    };

    assert_eq!(results.len(), 1);
    assert_eq!(
        Some(results[0].as_str()),
        Some("tests/mesh_update/test/meshes/test.dae")
    );
}

#[test]
fn it_recursively_scans_the_dir() {
    let dir = &join(&join("tests", "mesh_update"), "test");
    let tree = model();
    let results = match recursive_scan(dir, &tree, "dae", Vec::new()) {
        Ok(mesh_list) => mesh_list,
        Err(error) => panic!("Failed to scan all directories for meshes: {:?}", error),
    };

    assert_eq!(results.len(), 1);
    assert_eq!(
        Some(results[0].as_str()),
        Some("tests/mesh_update/test/meshes/test.dae")
    );
}

#[test]
fn mesh_extension_is_dae() {
    assert_eq!(MESH_EXTENSION, "dae");
}

#[test]
fn nested_mesh_is_the_only_result() {
    let tree = Tree::Directory(vec![
        file("readme.md"),
        dir("meshes", vec![file("test.dae")]),
        dir("textures", vec![file("test.png")]),
    ]);
    assert_eq!(
        recursive_scan("root", &tree, "dae", Vec::new()),
        Ok(paths(&["root/meshes/test.dae"]))
    );
    assert_eq!(scan_dir_for_meshes("root", &tree), Ok(paths(&["root/meshes/test.dae"])));
}

#[test]
fn scan_finds_the_meshes_at_every_depth_in_walking_order() {
    let tree = library();
    assert_eq!(
        recursive_scan("models", &tree, "dae", Vec::new()),
        Ok(paths(&[
            "models/index.dae",
            "models/robot/meshes/arm.dae",
            "models/robot/meshes/base.dae",
            "models/table/meshes/lods/table_low.dae",
            "models/last.dae",
        ]))
    );
}

#[test]
fn scan_finds_the_files_of_another_extension_when_asked() {
    let tree = library();
    assert_eq!(
        recursive_scan("models", &tree, "stl", Vec::new()),
        Ok(paths(&["models/robot/meshes/arm.stl"]))
    );
    assert_eq!(recursive_scan("models", &tree, "obj", Vec::new()), Ok(Vec::new()));
}

#[test]
fn scan_adds_to_the_meshes_it_was_given() {
    let tree = model();
    let before = paths(&["other/a.dae", "other/b.dae"]);
    assert_eq!(
        recursive_scan("root", &tree, "dae", before),
        Ok(paths(&["other/a.dae", "other/b.dae", "root/meshes/test.dae"]))
    );
}

#[test]
fn backup_and_upper_case_names_are_left_out() {
    let tree = Tree::Directory(vec![
        file("model.dae.bak"),
        file("model.DAE"),
        dir("meshes", vec![file("model.Dae"), file("model.dae~"), file("model.dae")]),
    ]);
    assert_eq!(
        recursive_scan("root", &tree, "dae", Vec::new()),
        Ok(paths(&["root/meshes/model.dae"]))
    );
}

#[test]
fn directories_are_never_part_of_the_result() {
    let tree = Tree::Directory(vec![dir("a.dae", vec![dir("b.dae", vec![])]), file("c.dae")]);
    assert_eq!(recursive_scan("root", &tree, "dae", Vec::new()), Ok(paths(&["root/c.dae"])));
}

#[test]
fn second_scan_of_a_tree_finds_what_the_first_found() {
    let tree = library();
    let first = recursive_scan("models", &tree, "dae", Vec::new());
    let second = recursive_scan("models", &tree, "dae", Vec::new());
    assert!(first.is_ok());
    assert_eq!(first, second);
}

#[test]
fn order_of_the_entries_changes_the_order_of_the_result_only() {
    let one = recursive_scan("models", &library(), "dae", Vec::new()).unwrap();
    let other = recursive_scan("models", &library_in_another_order(), "dae", Vec::new()).unwrap();
    assert_ne!(one, other);
    assert_eq!(sorted(one), sorted(other));
}

#[test]
fn path_that_is_no_directory_yields_nothing() {
    let missing: Tree<String> = Tree::Other;
    assert_eq!(recursive_scan("missing", &missing, "dae", Vec::new()), Ok(Vec::new()));
    assert_eq!(recursive_scan("file.dae", &missing, "dae", Vec::new()), Ok(Vec::new()));
    assert_eq!(scan_dir_for_meshes("file.dae", &missing), Ok(Vec::new()));
}

#[test]
fn path_that_is_no_directory_leaves_the_meshes_as_they_were() {
    let missing: Tree<String> = Tree::Other;
    let before = paths(&["other/a.dae"]);
    assert_eq!(recursive_scan("missing", &missing, "dae", before.clone()), Ok(before));
}

#[test]
fn empty_directory_tree_yields_nothing() {
    let empty: Tree<String> = Tree::Directory(Vec::new());
    assert_eq!(recursive_scan("root", &empty, "dae", Vec::new()), Ok(Vec::new()));
}

#[test]
fn unreadable_root_tree_fails_the_scan() {
    let tree = Tree::Unreadable("denied".to_string());
    assert_eq!(recursive_scan("root", &tree, "dae", Vec::new()), Err(&"denied".to_string()));
}

#[test]
fn unreadable_subdirectory_fails_the_whole_scan() {
    let tree = Tree::Directory(vec![
        file("a.dae"),
        dir("meshes", vec![file("b.dae"), locked("private", "denied"), file("c.dae")]),
        file("d.dae"),
    ]);
    assert_eq!(recursive_scan("root", &tree, "dae", Vec::new()), Err(&"denied".to_string()));
    assert_eq!(
        recursive_scan("root", &tree, "dae", paths(&["other/a.dae"])),
        Err(&"denied".to_string())
    );
}

#[test]
fn entry_that_cannot_be_resolved_fails_the_whole_scan() {
    let tree = Tree::Directory(vec![dir("meshes", vec![file("b.dae"), failed("stale")])]);
    assert_eq!(recursive_scan("root", &tree, "dae", Vec::new()), Err(&"stale".to_string()));
}

#[test]
fn scan_fails_with_the_first_failure_on_its_way() {
    let tree = Tree::Directory(vec![
        dir("a", vec![dir("b", vec![file("x.dae"), failed("first")]), locked("c", "second")]),
        failed("third"),
        locked("d", "fourth"),
    ]);
    assert_eq!(recursive_scan("root", &tree, "dae", Vec::new()), Err(&"first".to_string()));
    let tree = Tree::Directory(vec![
        failed("third"),
        dir("a", vec![dir("b", vec![file("x.dae"), failed("first")]), locked("c", "second")]),
    ]);
    assert_eq!(recursive_scan("root", &tree, "dae", Vec::new()), Err(&"third".to_string()));
}

#[test]
fn scan_by_steps_finds_what_the_scan_of_the_tree_finds() {
    let trees = [("root", model()), ("models", library()), ("x/", library_in_another_order())];
    for (root, tree) in trees {
        for target in ["dae", "stl", "png", ""] {
            let whole = recursive_scan(root, &tree, target, Vec::new());
            let by_steps = scan_by_steps(root, &tree, target);
            assert_eq!(whole.map_err(|why| why.clone()), by_steps);
        }
    }
}

#[test]
fn scan_by_steps_fails_as_the_scan_of_the_tree_fails() {
    let tree = Tree::Directory(vec![
        file("a.dae"),
        dir("meshes", vec![file("b.dae"), locked("private", "denied"), failed("stale")]),
        failed("late"),
    ]);
    let whole = recursive_scan("root", &tree, "dae", Vec::new());
    assert_eq!(whole, Err(&"denied".to_string()));
    assert_eq!(scan_by_steps("root", &tree, "dae"), Err("denied".to_string()));
}
