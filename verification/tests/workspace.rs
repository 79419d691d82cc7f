use libfqcat::workspace::Workspace;

#[test]
fn a_new_workspace_is_empty() {
    let ws = Workspace::new();
    assert_eq!(ws.len(), 0);
    assert!(!ws.contains("a"));
    assert!(ws.read("a").is_none());
    assert!(ws.names().is_empty());
}

#[test]
fn write_creates_and_replaces() {
    let mut ws = Workspace::new();
    ws.write("a", vec![1, 2, 3]);
    assert!(ws.contains("a"));
    assert_eq!(ws.read("a"), Some(&vec![1, 2, 3]));
    ws.write("a", vec![9]);
    assert_eq!(ws.read("a"), Some(&vec![9]));
    assert_eq!(ws.len(), 1);
}

#[test]
fn append_creates_a_missing_file() {
    let mut ws = Workspace::new();
    ws.append("a", &[]);
    assert_eq!(ws.read("a"), Some(&Vec::new()));
    ws.append("b", &[7, 8]);
    assert_eq!(ws.read("b"), Some(&vec![7, 8]));
    assert_eq!(ws.len(), 2);
}

#[test]
fn append_keeps_what_was_there() {
    let mut ws = Workspace::new();
    ws.write("a", vec![1, 2]);
    ws.write("b", vec![5]);
    ws.append("a", &[3, 4]);
    ws.append("a", &[]);
    assert_eq!(ws.read("a"), Some(&vec![1, 2, 3, 4]));
    assert_eq!(ws.read("b"), Some(&vec![5]));
    assert_eq!(ws.len(), 2);
}

#[test]
fn remove_says_whether_the_file_existed() {
    let mut ws = Workspace::new();
    ws.write("a", vec![1]);
    ws.write("b", vec![2]);
    assert!(ws.remove("a"));
    assert!(!ws.remove("a"));
    assert!(!ws.contains("a"));
    assert_eq!(ws.read("b"), Some(&vec![2]));
    assert_eq!(ws.len(), 1);
}

#[test]
fn names_lists_every_file_once() {
    let mut ws = Workspace::new();
    ws.write("a", vec![1]);
    ws.write("b", vec![2]);
    ws.write("c", vec![3]);
    ws.append("a", &[4]);
    ws.remove("b");
    let mut names = ws.names();
    names.sort();
    assert_eq!(names, vec!["a".to_string(), "c".to_string()]);
}

#[test]
fn names_are_compared_letter_by_letter() {
    let mut ws = Workspace::new();
    ws.write("dir/a", vec![1]);
    assert!(!ws.contains("dir//a"));
    assert!(!ws.contains("dir/A"));
    assert!(!ws.contains("dir/a "));
}
