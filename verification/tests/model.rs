use tree_map_base::model::{split_components, Node};

fn root() -> Node {
    Node::new("root".to_string(), "/data/root".to_string(), 0)
}

fn child<'a>(node: &'a Node, name: &str) -> &'a Node {
    node.children
        .iter()
        .find(|child| child.name == name)
        .unwrap_or_else(|| panic!("no child named {name}"))
}

fn entries(node: &Node, prefix: &str, out: &mut Vec<(String, u64, bool)>) {
    for child in &node.children {
        let path = if prefix.is_empty() {
            child.name.clone()
        } else {
            format!("{prefix}/{}", child.name)
        };
        out.push((path.clone(), child.size, child.children.is_empty()));
        entries(child, &path, out);
    }
}

fn sorted_entries(node: &Node) -> Vec<(String, u64, bool)> {
    let mut out = Vec::new();
    entries(node, "", &mut out);
    out.sort();
    out
}

#[test]
fn new_node_is_a_leaf() {
    let node = Node::new("a.txt".to_string(), "/x/a.txt".to_string(), 7);
    assert_eq!(node.name, "a.txt");
    assert_eq!(node.path, "/x/a.txt");
    assert_eq!(node.size, 7);
    assert!(node.children.is_empty());
}

#[test]
fn split_components_drops_empty_and_dot() {
    let parts = split_components("a//b/./c.txt");
    assert_eq!(parts, vec!["a".to_string(), "b".to_string(), "c.txt".to_string()]);
    assert!(split_components("").is_empty());
    assert!(split_components(".").is_empty());
    assert!(split_components("/./").is_empty());
    assert_eq!(split_components("./x/"), vec!["x".to_string()]);
    assert_eq!(split_components(".."), vec!["..".to_string()]);
    assert_eq!(split_components("..a/.b"), vec!["..a".to_string(), ".b".to_string()]);
}

#[test]
fn insert_creates_missing_directories_with_size_zero() {
    let mut tree = root();
    tree.insert_relative("a/b/c.txt", 5);
    assert_eq!(tree.size, 0);
    assert_eq!(tree.children.len(), 1);
    let a = child(&tree, "a");
    assert_eq!((a.size, a.path.as_str()), (0, "/data/root/a"));
    let b = child(a, "b");
    assert_eq!((b.size, b.path.as_str()), (0, "/data/root/a/b"));
    let c = child(b, "c.txt");
    assert_eq!((c.size, c.path.as_str()), (5, "/data/root/a/b/c.txt"));
    assert!(c.children.is_empty());
}

#[test]
fn insert_below_a_root_that_ends_in_a_slash() {
    let mut tree = Node::new("/".to_string(), "/".to_string(), 0);
    tree.insert_relative("etc/hosts", 3);
    let etc = child(&tree, "etc");
    assert_eq!(etc.path, "/etc");
    assert_eq!(child(etc, "hosts").path, "/etc/hosts");
    let mut bare = Node::new("".to_string(), "".to_string(), 0);
    bare.insert_relative("x", 1);
    assert_eq!(child(&bare, "x").path, "x");
}

#[test]
fn insert_passes_over_empty_and_current_directory_components() {
    let mut tree = root();
    tree.insert_relative("./a//b.txt", 9);
    let a = child(&tree, "a");
    assert_eq!(child(a, "b.txt").size, 9);
    assert_eq!(a.children.len(), 1);
    tree.insert_relative("", 100);
    tree.insert_relative(".", 100);
    assert_eq!(tree.children.len(), 1);
    assert_eq!(tree.size, 0);
}

#[test]
fn insert_twice_keeps_the_last_size() {
    let mut tree = root();
    tree.insert_relative("a/x", 1);
    tree.insert_relative("a/x", 1);
    assert_eq!(child(&tree, "a").children.len(), 1);
    assert_eq!(child(child(&tree, "a"), "x").size, 1);
    tree.insert_relative("a/x", 8);
    assert_eq!(child(&tree, "a").children.len(), 1);
    assert_eq!(child(child(&tree, "a"), "x").size, 8);
}

#[test]
fn insert_keeps_siblings_in_insertion_order() {
    let mut tree = root();
    tree.insert_relative("b", 1);
    tree.insert_relative("a", 2);
    tree.insert_relative("c", 3);
    let names: Vec<&str> = tree.children.iter().map(|c| c.name.as_str()).collect();
    assert_eq!(names, vec!["b", "a", "c"]);
}

#[test]
fn insert_components_starts_at_the_index_given() {
    let mut tree = root();
    let parts = vec!["skip".to_string(), "".to_string(), "a".to_string(), "b".to_string()];
    tree.insert_components(&parts, 2, 4);
    assert_eq!(tree.children.len(), 1);
    assert_eq!(child(child(&tree, "a"), "b").size, 4);
    tree.insert_components(&parts, 4, 4);
    tree.insert_components(&parts, 9, 4);
    assert_eq!(tree.children.len(), 1);
}

#[test]
fn compute_total_size_adds_up_bottom_up() {
    let mut tree = root();
    tree.insert_relative("a/x", 10);
    tree.insert_relative("a/y", 20);
    tree.insert_relative("b/c/z", 5);
    tree.insert_relative("top", 1);
    assert_eq!(tree.compute_total_size(), 36);
    assert_eq!(tree.size, 36);
    assert_eq!(child(&tree, "a").size, 30);
    assert_eq!(child(&tree, "b").size, 5);
    assert_eq!(child(child(&tree, "b"), "c").size, 5);
    assert_eq!(child(&tree, "top").size, 1);
}

#[test]
fn compute_total_size_of_a_leaf_is_its_size() {
    let mut leaf = Node::new("f".to_string(), "f".to_string(), 42);
    assert_eq!(leaf.compute_total_size(), 42);
    assert_eq!(leaf.size, 42);
}

#[test]
fn compute_total_size_overrides_a_size_written_to_a_directory() {
    let mut tree = root();
    tree.insert_relative("a", 50);
    tree.insert_relative("a/b", 3);
    tree.compute_total_size();
    assert_eq!(child(&tree, "a").size, 3);
    assert_eq!(tree.size, 3);
}

#[test]
fn compute_total_size_saturates() {
    let mut tree = root();
    tree.insert_relative("big", u64::MAX - 1);
    tree.insert_relative("more", 5);
    tree.insert_relative("d/deep", u64::MAX);
    assert_eq!(tree.compute_total_size(), u64::MAX);
    assert_eq!(child(&tree, "d").size, u64::MAX);
}

#[test]
fn sort_puts_largest_first_and_keeps_ties_in_order() {
    let mut tree = root();
    for (name, size) in [("a", 5), ("b", 9), ("c", 5), ("d", 0), ("e", 9), ("f", 7)] {
        tree.insert_relative(name, size);
    }
    tree.insert_relative("dir/small", 1);
    tree.insert_relative("dir/large", 2);
    tree.compute_total_size();
    tree.sort_children_by_size_desc();
    let order: Vec<(&str, u64)> =
        tree.children.iter().map(|c| (c.name.as_str(), c.size)).collect();
    assert_eq!(
        order,
        vec![("b", 9), ("e", 9), ("f", 7), ("a", 5), ("c", 5), ("dir", 3), ("d", 0)]
    );
    let inner: Vec<&str> = child(&tree, "dir").children.iter().map(|c| c.name.as_str()).collect();
    assert_eq!(inner, vec!["large", "small"]);
    assert_eq!(tree.size, 38);
}

#[test]
fn every_directory_is_the_sum_of_its_children_after_finalization() {
    fn check(node: &Node) {
        if !node.children.is_empty() {
            let sum: u128 = node.children.iter().map(|c| c.size as u128).sum();
            assert_eq!(node.size as u128, sum.min(u64::MAX as u128));
            for pair in node.children.windows(2) {
                assert!(pair[0].size >= pair[1].size);
            }
            node.children.iter().for_each(check);
        }
    }
    let mut tree = root();
    for (i, path) in ["a/b/c", "a/b/d", "a/e", "f", "g/h/i/j", "g/h/k", "a/l/m"].iter().enumerate() {
        tree.insert_relative(path, (i as u64 + 1) * 13);
    }
    tree.compute_total_size();
    tree.sort_children_by_size_desc();
    check(&tree);
    assert_eq!(tree.size, 13 * 28);
}

#[test]
fn insertion_order_does_not_change_the_finished_tree() {
    let pairs: Vec<(&str, u64)> = vec![
        ("a/b/c.txt", 5),
        ("a/b", 77),
        ("a/d.txt", 9),
        ("e.txt", 1),
        ("f/g/h/i", 20),
        ("f/g", 0),
        ("a/b/c.txt", 5),
        ("./f//x", 4),
    ];
    let build = |order: &[usize]| {
        let mut tree = root();
        for &i in order {
            tree.insert_relative(pairs[i].0, pairs[i].1);
        }
        tree.compute_total_size();
        tree.sort_children_by_size_desc();
        tree
    };
    let reference = build(&[0, 1, 2, 3, 4, 5, 6, 7]);
    assert_eq!(reference.size, 39);
    for order in [
        [7, 6, 5, 4, 3, 2, 1, 0],
        [1, 0, 6, 2, 5, 4, 7, 3],
        [4, 7, 5, 3, 0, 6, 2, 1],
        [6, 2, 0, 1, 3, 7, 4, 5],
    ] {
        let other = build(&order);
        assert_eq!(other.size, reference.size);
        assert_eq!(sorted_entries(&other), sorted_entries(&reference));
    }
}

#[test]
fn a_clone_is_a_copy_of_the_whole_subtree() {
    let mut tree = root();
    tree.insert_relative("a/b/c.txt", 5);
    tree.insert_relative("d", 7);
    let copy = tree.clone();
    tree.insert_relative("late", 1);
    assert_eq!(copy.children.len(), 2);
    assert_eq!(sorted_entries(&copy).len(), 4);
    assert_eq!(child(child(child(&copy, "a"), "b"), "c.txt").size, 5);
    assert_eq!(child(&copy, "d").path, "/data/root/d");
    assert_eq!((copy.name.as_str(), copy.path.as_str(), copy.size), ("root", "/data/root", 0));
    assert_eq!(tree.children.len(), 3);
}

#[test]
fn with_distinct_sibling_sizes_the_finished_trees_are_the_same_list_by_list() {
    fn listing(node: &Node, out: &mut Vec<(String, String, u64, usize)>) {
        out.push((node.name.clone(), node.path.clone(), node.size, node.children.len()));
        for child in &node.children {
            listing(child, out);
        }
    }
    let pairs: Vec<(&str, u64)> = vec![
        ("a/b/c.txt", 5),
        ("a/b/d.txt", 6),
        ("a/e.txt", 9),
        ("f.txt", 1),
        ("g/h/i", 20),
        ("g/j", 3),
        ("k", 40),
    ];
    let build = |order: &[usize]| {
        let mut tree = root();
        for &i in order {
            tree.insert_relative(pairs[i].0, pairs[i].1);
        }
        tree.compute_total_size();
        tree.sort_children_by_size_desc();
        let mut out = Vec::new();
        listing(&tree, &mut out);
        out
    };
    let reference = build(&[0, 1, 2, 3, 4, 5, 6]);
    let top: Vec<&str> = reference.iter().filter(|e| e.1.matches('/').count() == 3).map(|e| e.0.as_str()).collect();
    assert_eq!(top, vec!["k", "g", "a", "f.txt"]);
    for order in [[6, 5, 4, 3, 2, 1, 0], [3, 0, 6, 2, 5, 1, 4], [4, 1, 5, 0, 6, 3, 2]] {
        assert_eq!(build(&order), reference);
    }
}
