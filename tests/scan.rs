use dirtree_json::entry::Entry;
use dirtree_json::walk::{Event, ScanError, Step, Walker};

fn file(name: &str) -> Event {
    Event::File(name.to_string())
}

fn dir(name: &str) -> Event {
    Event::Dir(name.to_string())
}

/// Feeds the events in order; every step but the last must go on.
fn run(root: &str, events: Vec<Event>) -> Result<Entry, ScanError> {
    let mut w = Walker::new(root.to_string());
    let n = events.len();
    for (i, ev) in events.into_iter().enumerate() {
        assert!(w.is_active());
        match w.step(ev)? {
            Step::Done(e) => {
                assert_eq!(i, n - 1, "the scan ended early");
                assert!(!w.is_active());
                return Ok(e);
            }
            Step::Next | Step::Descend => {}
        }
    }
    panic!("the scan did not end");
}

fn names(e: &Entry) -> Vec<String> {
    let mut v: Vec<String> = e.children.iter().map(|c| c.name.clone()).collect();
    v.sort();
    v
}

fn child<'a>(e: &'a Entry, name: &str) -> &'a Entry {
    e.children.iter().find(|c| c.name == name).expect("child present")
}

fn proj_events() -> Vec<Event> {
    vec![file("a.txt"), dir("b"), file("c.txt"), Event::End, Event::End]
}

#[test]
fn project_scenario() {
    let root = run("proj", proj_events()).unwrap();
    assert_eq!(root.name, "proj");
    assert!(root.is_dir);
    assert_eq!(names(&root), vec!["a.txt".to_string(), "b".to_string()]);
    let a = child(&root, "a.txt");
    assert!(!a.is_dir);
    assert!(a.children.is_empty());
    assert!(!a.has_children());
    let b = child(&root, "b");
    assert!(b.is_dir);
    assert!(b.has_children());
    assert_eq!(names(b), vec!["c.txt".to_string()]);
    let c = child(b, "c.txt");
    assert!(!c.is_dir);
    assert!(!c.has_children());
}

#[test]
fn project_scenario_other_order() {
    let events = vec![dir("b"), file("c.txt"), Event::End, file("a.txt"), Event::End];
    let root = run("proj", events).unwrap();
    assert_eq!(names(&root), vec!["a.txt".to_string(), "b".to_string()]);
    assert_eq!(root.children[0].name, "b");
    assert_eq!(root.children[1].name, "a.txt");
    assert_eq!(names(child(&root, "b")), vec!["c.txt".to_string()]);
}

#[test]
fn children_keep_listing_order() {
    let events = vec![file("z"), file("a"), file("m"), Event::End];
    let root = run("r", events).unwrap();
    let order: Vec<&str> = root.children.iter().map(|c| c.name.as_str()).collect();
    assert_eq!(order, vec!["z", "a", "m"]);
}

#[test]
fn empty_root_has_no_children() {
    let root = run("empty", vec![Event::End]).unwrap();
    assert_eq!(root.name, "empty");
    assert!(root.is_dir);
    assert!(root.children.is_empty());
    assert!(!root.has_children());
}

#[test]
fn empty_subdirectory_is_a_directory_without_children() {
    let root = run("r", vec![dir("d"), Event::End, Event::End]).unwrap();
    let d = child(&root, "d");
    assert!(d.is_dir);
    assert!(d.children.is_empty());
    assert!(!d.has_children());
    assert!(root.has_children());
}

#[test]
fn deep_tree_mirrors_nesting() {
    let events = vec![
        dir("x"),
        dir("y"),
        dir("z"),
        file("leaf"),
        Event::End,
        Event::End,
        file("y2"),
        Event::End,
        file("top"),
        Event::End,
    ];
    let root = run("r", events).unwrap();
    assert_eq!(names(&root), vec!["top".to_string(), "x".to_string()]);
    let x = child(&root, "x");
    assert_eq!(names(x), vec!["y".to_string(), "y2".to_string()]);
    let y = child(x, "y");
    assert_eq!(names(y), vec!["z".to_string()]);
    let z = child(y, "z");
    assert_eq!(names(z), vec!["leaf".to_string()]);
    assert!(!child(z, "leaf").is_dir);
    assert!(!child(x, "y2").is_dir);
}

#[test]
fn rescan_of_same_tree_is_identical() {
    let first = run("proj", proj_events()).unwrap();
    let second = run("proj", proj_events()).unwrap();
    assert_eq!(first, second);
}

#[test]
fn unreadable_entries_are_skipped() {
    let events = vec![
        Event::Skipped,
        file("a.txt"),
        dir("b"),
        Event::Skipped,
        file("c.txt"),
        Event::End,
        Event::Skipped,
        Event::End,
    ];
    let root = run("proj", events).unwrap();
    assert_eq!(root, run("proj", proj_events()).unwrap());
}

#[test]
fn unlistable_root_fails() {
    let mut w = Walker::new("missing".to_string());
    assert!(matches!(w.step(Event::ListFailed), Err(ScanError::DirectoryRead)));
}

#[test]
fn root_that_is_a_file_fails() {
    assert!(matches!(run("a.txt", vec![Event::ListFailed]), Err(ScanError::DirectoryRead)));
}

#[test]
fn unlistable_subdirectory_fails() {
    let r = run("r", vec![file("a"), dir("locked"), Event::ListFailed, Event::End]);
    assert!(matches!(r, Err(ScanError::DirectoryRead)));
}

#[test]
fn bad_name_fails() {
    let r = run("r", vec![file("a"), Event::BadName, Event::End]);
    assert!(matches!(r, Err(ScanError::Encoding)));
}

#[test]
fn unknown_type_fails() {
    let r = run("r", vec![dir("d"), Event::UnknownType, Event::End, Event::End]);
    assert!(matches!(r, Err(ScanError::Encoding)));
}

#[test]
fn step_answers() {
    let mut w = Walker::new("r".to_string());
    assert!(matches!(w.step(dir("d")), Ok(Step::Descend)));
    assert!(matches!(w.step(file("f")), Ok(Step::Next)));
    assert!(matches!(w.step(Event::Skipped), Ok(Step::Next)));
    assert!(matches!(w.step(Event::End), Ok(Step::Next)));
    assert!(w.is_active());
    match w.step(Event::End) {
        Ok(Step::Done(e)) => {
            assert_eq!(e.name, "r");
            assert_eq!(e.children.len(), 1);
            assert_eq!(e.children[0].children[0].name, "f");
        }
        _ => panic!("expected the root"),
    }
    assert!(!w.is_active());
}

#[test]
fn file_entry_has_no_children() {
    let e = Entry::file("notes.md".to_string());
    assert_eq!(e.name, "notes.md");
    assert!(!e.is_dir);
    assert!(e.children.is_empty());
    assert!(!e.has_children());
}
