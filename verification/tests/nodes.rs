use tree_array::tree_array::Node;
use tree_array::TreeArray;

#[test]
fn leaf_dump() {
    let n = Node::new(7, None, None);
    assert_eq!(n.value, 7);
    assert_eq!(n.to_str(), "[7 size=1] left=(nil) right=(nil)");
}

#[test]
fn node_with_children() {
    let l = Node::new(1, None, None);
    let r = Node::new(3, None, None);
    let mut n = Node::new(2, Some(Box::new(l)), Some(Box::new(r)));
    assert_eq!(n.rel_index(), 1);
    assert_eq!(
        n.to_str(),
        "[2 size=3] left=([1 size=1] left=(nil) right=(nil)) right=([3 size=1] left=(nil) right=(nil))"
    );
}

#[test]
fn rel_index_counts_the_left_subtree() {
    let a = Node::new('a', None, None);
    let b = Node::new('b', Some(Box::new(a)), None);
    let mut c = Node::new('c', Some(Box::new(b)), None);
    assert_eq!(c.rel_index(), 2);
    let mut lone = Node::new('x', None, Some(Box::new(c)));
    assert_eq!(lone.rel_index(), 0);
    assert_eq!(
        lone.to_str(),
        "[x size=4] left=(nil) right=([c size=3] left=([b size=2] left=([a size=1] left=(nil) right=(nil)) right=(nil)) right=(nil))"
    );
}

#[test]
fn remove_left_takes_the_size_along() {
    let l = Node::new(1, None, None);
    let r = Node::new(3, None, None);
    let mut n = Node::new(2, Some(Box::new(l)), Some(Box::new(r)));
    let gone = n.remove_left();
    assert_eq!(gone.map(|g| g.to_str()), Some(String::from("[1 size=1] left=(nil) right=(nil)")));
    assert_eq!(n.rel_index(), 0);
    assert_eq!(n.to_str(), "[2 size=2] left=(nil) right=([3 size=1] left=(nil) right=(nil))");
    assert!(n.remove_left().is_none());
    assert_eq!(n.to_str(), "[2 size=2] left=(nil) right=([3 size=1] left=(nil) right=(nil))");
}

#[test]
fn remove_right_takes_the_size_along() {
    let l = Node::new(1, None, None);
    let r = Node::new(3, None, None);
    let mut n = Node::new(2, Some(Box::new(l)), Some(Box::new(r)));
    let gone = n.remove_right();
    assert_eq!(gone.map(|g| g.to_str()), Some(String::from("[3 size=1] left=(nil) right=(nil)")));
    assert_eq!(n.rel_index(), 1);
    assert_eq!(n.to_str(), "[2 size=2] left=([1 size=1] left=(nil) right=(nil)) right=(nil)");
    assert!(n.remove_right().is_none());
}

#[test]
fn rehoming_detached_subtrees() {
    let l = Node::new(1, None, None);
    let r = Node::new(3, None, None);
    let mut n = Node::new(2, Some(Box::new(l)), Some(Box::new(r)));
    let left = n.remove_left();
    let right = n.remove_right();
    assert_eq!(n.to_str(), "[2 size=1] left=(nil) right=(nil)");
    let swapped = Node::new(n.value, right, left);
    assert_eq!(
        swapped.to_str(),
        "[2 size=3] left=([3 size=1] left=(nil) right=(nil)) right=([1 size=1] left=(nil) right=(nil))"
    );
}

#[test]
fn clone_keeps_shape_and_values() {
    let l = Node::new(String::from("l"), None, None);
    let mut n = Node::new(String::from("n"), Some(Box::new(l)), None);
    let copy = n.clone();
    assert_eq!(copy.to_str(), n.to_str());
    assert_eq!(copy.value, "n");
    n.remove_left();
    assert_eq!(copy.to_str(), "[n size=2] left=([l size=1] left=(nil) right=(nil)) right=(nil)");
    assert_eq!(n.to_str(), "[n size=1] left=(nil) right=(nil)");
}

#[test]
fn empty_tree_dump() {
    let t: TreeArray<i32> = TreeArray::new();
    assert_eq!(t.to_str(), "nil");
}

#[test]
fn dump_after_appending() {
    let mut t = TreeArray::new();
    t.insert(0, 1);
    assert_eq!(t.to_str(), "[1 size=1] left=(nil) right=(nil)");
    t.insert(1, 2);
    assert_eq!(t.to_str(), "[2 size=2] left=([1 size=1] left=(nil) right=(nil)) right=(nil)");
}

#[test]
fn get_brings_the_rank_to_the_root() {
    let mut t = TreeArray::new();
    t.insert(0, 1);
    t.insert(1, 2);
    assert_eq!(t.get(0), Some(&1));
    assert_eq!(t.to_str(), "[1 size=2] left=(nil) right=([2 size=1] left=(nil) right=(nil))");
    assert_eq!(t.get(1), Some(&2));
    assert_eq!(t.to_str(), "[2 size=2] left=([1 size=1] left=(nil) right=(nil)) right=(nil)");
    assert_eq!(t.get(5), None);
    assert_eq!(t.to_str(), "[2 size=2] left=([1 size=1] left=(nil) right=(nil)) right=(nil)");
}

#[test]
fn dump_writes_sizes_in_decimal() {
    let mut t = TreeArray::new();
    for i in 0..1234 {
        t.insert(i, 0u8);
    }
    assert_eq!(t.len(), 1234);
    let text = t.to_str();
    assert!(text.starts_with("[0 size=1234] left=([0 size=1233] "));
    let mut small = TreeArray::new();
    for i in 0..10 {
        small.insert(i, 'z');
    }
    assert!(small.to_str().starts_with("[z size=10] left=([z size=9] left=("));
}
