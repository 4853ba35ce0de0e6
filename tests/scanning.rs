use bellavista::scanning::Node;

fn names(n: &Node) -> Vec<String> {
    n.children.as_ref().unwrap().iter().map(|c| c.path.clone()).collect()
}

#[test]
fn empty_file_counts_one_byte() {
    let n = Node::file(String::from("a"), 0);
    assert_eq!(n.size, 1);
    assert!(n.children.is_none());
    let m = Node::file(String::from("b"), 10);
    assert_eq!(m.size, 10);
}

#[test]
fn directory_with_empty_and_ten_byte_file() {
    let d = Node::directory(
        String::from("d"),
        vec![Node::file(String::from("d/empty"), 0), Node::file(String::from("d/ten"), 10)],
    )
    .unwrap();
    assert_eq!(d.size, 11);
    let cs = d.children.as_ref().unwrap();
    assert_eq!(cs.len(), 2);
    assert!(cs.iter().all(|c| c.children.is_none()));
    assert_eq!(names(&d), vec!["d/ten".to_string(), "d/empty".to_string()]);
}

#[test]
fn children_sorted_by_decreasing_size_stably() {
    let d = Node::directory(
        String::from("d"),
        vec![
            Node::file(String::from("a"), 3),
            Node::file(String::from("b"), 7),
            Node::file(String::from("c"), 3),
            Node::file(String::from("e"), 9),
            Node::file(String::from("f"), 3),
        ],
    )
    .unwrap();
    assert_eq!(d.size, 25);
    assert_eq!(names(&d), vec!["e", "b", "a", "c", "f"]);
    let sizes: Vec<u64> = d.children.as_ref().unwrap().iter().map(|c| c.size).collect();
    assert!(sizes.windows(2).all(|w| w[0] >= w[1]));
}

#[test]
fn nested_directories_aggregate() {
    let inner = Node::directory(
        String::from("d/sub"),
        vec![Node::file(String::from("d/sub/x"), 4), Node::file(String::from("d/sub/y"), 5)],
    )
    .unwrap();
    let d = Node::directory(String::from("d"), vec![Node::file(String::from("d/z"), 2), inner]).unwrap();
    assert_eq!(d.size, 11);
    assert_eq!(names(&d), vec!["d/sub", "d/z"]);
}

#[test]
fn empty_directory_has_empty_children() {
    let d = Node::directory(String::from("d"), vec![]).unwrap();
    assert_eq!(d.size, 0);
    assert_eq!(d.children.as_ref().unwrap().len(), 0);
}

#[test]
fn directory_total_overflow_is_none() {
    let d = Node::directory(
        String::from("d"),
        vec![Node::file(String::from("a"), u64::MAX), Node::file(String::from("b"), 1)],
    );
    assert!(d.is_none());
    let e = Node::directory(
        String::from("d"),
        vec![Node::file(String::from("a"), u64::MAX - 1), Node::file(String::from("b"), 1)],
    );
    assert_eq!(e.unwrap().size, u64::MAX);
}
