use trie::TNode;
use trie::Trie;

#[test]
fn integration_test() {
    let mut trie = Trie::new();
    assert_eq!(trie.root.is_end, false);

    trie.insert("");

    assert_eq!(trie.contains("\0"), false);
    assert_eq!(trie.root.is_end, false);

    let words = ["coal", "cat", "cin", "catch", "cut", "cit", "camp"];

    for (i, w) in words.iter().enumerate() {
        if i % 2 == 0 {
            trie.insert(*w);
        } else {
            trie.insert_iter(*w);
        }
    }

    for w in words.iter() {
        assert!(trie.contains(*w), "should contain \"{}\"", &w);
    }

    assert_eq!(trie.contains("ca"), false, "shouldn't contain \"ca\"");
    assert_eq!(trie.contains("ci"), false, "shouldn't contain \"ci\"");
    assert_eq!(trie.contains("co"), false, "shouldn't contain \"co\"");

    trie.delete("cat");
    assert_eq!(trie.contains("cat"), false);
    assert_eq!(trie.contains("catch"), true);

    trie.delete("coal");
    assert_eq!(trie.contains("coal"), false);
    assert_eq!(trie.contains("cut"), true);
    assert_eq!(trie.contains("catch"), true);

    trie.clear();

    for w in words.iter() {
        assert_eq!(trie.contains(*w), false);
    }
}

#[test]
fn test_deleto() {
    let mut trie_me = Trie::new();

    trie_me.insert_iter("null");
    trie_me.insert_iter("none");
    trie_me.insert_iter("nope");
    trie_me.insert_iter("nine");

    trie_me.delete_2("null");
    trie_me.delete_2("none");
    assert_eq!(trie_me.contains("null"), false);
    assert_eq!(trie_me.contains("none"), false);
}

#[test]
fn inserted_word_is_contained_and_stays() {
    let mut trie = Trie::new();
    trie.insert("cat");
    assert!(trie.contains("cat"));
    trie.insert("cab");
    assert!(trie.contains("cat"));
    trie.delete("cab");
    assert!(trie.contains("cat"));
    trie.delete("cat");
    assert!(!trie.contains("cat"));
}

#[test]
fn never_inserted_word_is_not_contained() {
    let mut trie = Trie::new();
    assert!(!trie.contains("dog"));
    trie.insert("cat");
    trie.insert("catch");
    assert!(!trie.contains("dog"));
    assert!(!trie.contains("cats"));
    assert!(!trie.contains("c"));
}

#[test]
fn strict_prefix_is_not_contained() {
    let mut trie = Trie::new();
    trie.insert("catch");
    assert!(!trie.contains("c"));
    assert!(!trie.contains("ca"));
    assert!(!trie.contains("cat"));
    assert!(!trie.contains("catc"));
    assert!(trie.contains("catch"));
}

#[test]
fn deleting_uninserted_word_is_a_no_op() {
    let mut trie = Trie::new();
    trie.insert("cat");
    trie.insert("coal");
    trie.delete("dog");
    trie.delete("ca");
    trie.delete("cats");
    trie.delete("");
    assert!(trie.contains("cat"));
    assert!(trie.contains("coal"));
    assert!(!trie.contains("ca"));
    assert_eq!(trie.root.children.len(), 1);
}

#[test]
fn deleting_a_prefix_keeps_the_longer_word() {
    let mut trie = Trie::new();
    trie.insert("cat");
    trie.insert("catch");
    trie.delete("cat");
    assert_eq!(trie.contains("cat"), false);
    assert_eq!(trie.contains("catch"), true);
}

#[test]
fn delete_prunes_dead_branches() {
    let mut trie = Trie::new();
    trie.insert("coal");
    assert_eq!(trie.root.children.len(), 1);
    trie.delete("coal");
    assert!(trie.root.children.is_empty());
}

#[test]
fn delete_2_prunes_dead_branches() {
    let mut trie = Trie::new();
    trie.insert("coal");
    trie.delete_2("coal");
    assert!(trie.root.children.is_empty());
}

#[test]
fn delete_is_idempotent() {
    let mut trie = Trie::new();
    trie.insert("cat");
    trie.insert("catch");
    trie.delete("cat");
    trie.delete("cat");
    assert!(!trie.contains("cat"));
    assert!(trie.contains("catch"));
    trie.delete_2("catch");
    trie.delete_2("catch");
    assert!(!trie.contains("catch"));
    assert!(trie.root.children.is_empty());
}

#[test]
fn insertion_order_does_not_matter() {
    let one = ["cat", "cut", "cit", "cin", "camp"];
    let two = ["camp", "cin", "cit", "cut", "cat"];
    let three = ["cit", "cat", "camp", "cin", "cut"];
    let orders = [one, two, three];
    for order in orders.iter() {
        let mut trie = Trie::new();
        for w in order.iter() {
            trie.insert(*w);
        }
        for w in one.iter() {
            assert!(trie.contains(*w), "should contain \"{}\"", w);
        }
        for p in ["c", "ca", "cu", "ci", "cam", "cap", "cats", ""].iter() {
            assert!(!trie.contains(*p), "shouldn't contain \"{}\"", p);
        }
    }
}

#[test]
fn clear_resets_all_memberships() {
    let mut trie = Trie::new();
    trie.insert("cat");
    trie.insert("coal");
    trie.insert("cut");
    trie.clear();
    assert!(!trie.contains("cat"));
    assert!(!trie.contains("coal"));
    assert!(!trie.contains("cut"));
    assert!(trie.root.children.is_empty());
    assert_eq!(trie.root.is_end, false);
    trie.insert("cat");
    assert!(trie.contains("cat"));
}

#[test]
fn empty_string_operations_do_nothing() {
    let mut trie = Trie::new();
    assert_eq!(trie.contains(""), false);
    trie.insert("");
    assert_eq!(trie.root.is_end, false);
    assert_eq!(trie.contains(""), false);
    trie.insert("cat");
    trie.delete("");
    trie.delete_2("");
    assert_eq!(trie.root.is_end, false);
    assert!(trie.contains("cat"));
    assert_eq!(trie.contains(""), false);
}

#[test]
fn delete_and_delete_2_agree() {
    let words = ["coal", "cat", "cin", "catch", "cut", "cit", "camp"];
    let victims = ["cat", "coal", "cin", "dog", "ca", ""];
    let mut with_delete = Trie::new();
    let mut with_delete_2 = Trie::new();
    for w in words.iter() {
        with_delete.insert(*w);
        with_delete_2.insert(*w);
    }
    for v in victims.iter() {
        with_delete.delete(*v);
        with_delete_2.delete_2(*v);
    }
    for w in words.iter() {
        assert_eq!(with_delete.contains(*w), with_delete_2.contains(*w));
    }
    assert_eq!(
        format!("{:?}", with_delete.root),
        format!("{:?}", with_delete_2.root)
    );
}

#[test]
fn insert_and_insert_iter_agree() {
    let words = ["coal", "cat", "cin", "catch", "cut", "cit", "camp"];
    let mut recursive = Trie::new();
    let mut iterative = Trie::new();
    for w in words.iter() {
        recursive.insert(*w);
        iterative.insert_iter(*w);
    }
    for w in words.iter() {
        assert!(recursive.contains(*w));
        assert!(iterative.contains(*w));
    }
    assert_eq!(format!("{:?}", recursive.root), format!("{:?}", iterative.root));
}

#[test]
fn node_new_has_is_empty() {
    let node = TNode::new('x', false);
    assert_eq!(node.value, 'x');
    assert_eq!(node.is_end, false);
    assert!(node.is_empty());
    assert!(!node.has(&'a'));

    let marked = TNode::new('y', true);
    assert!(!marked.is_empty());

    let mut parent = TNode::new('p', false);
    parent.children.push(TNode::new('a', true));
    assert!(parent.has(&'a'));
    assert!(!parent.has(&'b'));
    assert!(!parent.is_empty());
}

#[test]
fn node_get_mut_borrows_the_child() {
    let mut parent = TNode::new('p', false);
    parent.children.push(TNode::new('a', false));
    match parent.get_mut(&'a') {
        Some(child) => {
            assert_eq!(child.value, 'a');
            child.is_end = true;
        }
        None => panic!("child should be there"),
    }
    assert_eq!(parent.children[0].is_end, true);
    assert!(parent.get_mut(&'b').is_none());
}
