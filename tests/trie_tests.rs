use strands::{Node, Trie};

#[test]
fn test_trie_new() {
    let trie = Trie::new();
    let good = Trie {
        root_node: Box::new(Node { letter: None, children: vec![], word_end: false }),
    };
    assert_eq!(trie, good);
}

#[test]
fn test_node_new() {
    let node = Node::new(Some('a'));
    let good = Node { letter: Some('a'), children: vec![], word_end: false };
    assert_eq!(node, good);
}

#[test]
fn test_insert_1() {
    let mut trie = Trie::new();
    trie.insert("dog".to_string());
    assert_eq!(trie.root_node.children.len(), 1);
    assert_eq!(trie.root_node.children[0].letter, Some('d'));
    assert_eq!(trie.root_node.children[0].children[0].letter, Some('o'));
    assert_eq!(trie.root_node.children[0].children[0].children[0].letter, Some('g'));
}

#[test]
fn test_insert_2() {
    let mut trie = Trie::new();
    trie.insert("dog".to_string());
    trie.insert("cat".to_string());
    assert_eq!(trie.root_node.children.len(), 2);
    assert_eq!(trie.root_node.children[0].letter, Some('d'));
    assert_eq!(trie.root_node.children[0].children[0].letter, Some('o'));
    assert_eq!(trie.root_node.children[0].children[0].children[0].letter, Some('g'));

    assert_eq!(trie.root_node.children[1].letter, Some('c'));
    assert_eq!(trie.root_node.children[1].children[0].letter, Some('a'));
    assert_eq!(trie.root_node.children[1].children[0].children[0].letter, Some('t'));
}

#[test]
fn test_insert_3() {
    let mut trie = Trie::new();
    trie.insert("dog".to_string());
    trie.insert("dad".to_string());
    assert_eq!(trie.root_node.children.len(), 1);
    assert_eq!(trie.root_node.children[0].letter, Some('d'));
    assert_eq!(trie.root_node.children[0].children[0].letter, Some('o'));
    assert_eq!(trie.root_node.children[0].children[0].children[0].letter, Some('g'));

    assert_eq!(trie.root_node.children[0].letter, Some('d'));
    assert_eq!(trie.root_node.children[0].children[1].letter, Some('a'));
    assert_eq!(trie.root_node.children[0].children[1].children[0].letter, Some('d'));
}

#[test]
fn test_insert_4() {
    let mut trie = Trie::new();
    trie.insert("dog".to_string());
    assert!(!trie.root_node.word_end);
}

#[test]
fn test_insert_5() {
    let mut trie = Trie::new();
    trie.insert("dog".to_string());
    assert!(trie.root_node.children[0].children[0].children[0].word_end);
}

#[test]
fn test_insert_6() {
    let mut trie = Trie::new();
    trie.insert("cat".to_string());
    trie.insert("cats".to_string());
    assert_eq!(trie.root_node.children.len(), 1);
    assert_eq!(trie.root_node.children[0].letter, Some('c'));
    assert_eq!(trie.root_node.children[0].children[0].letter, Some('a'));
    assert_eq!(trie.root_node.children[0].children[0].children[0].letter, Some('t'));
    assert!(trie.root_node.children[0].children[0].children[0].word_end);

    assert_eq!(trie.root_node.children[0].children[0].children[0].children[0].letter, Some('s'));
    assert!(trie.root_node.children[0].children[0].children[0].children[0].word_end);
}

#[test]
fn test_search_1() {
    let mut trie = Trie::new();
    trie.insert("dog".to_string());
    trie.insert("cat".to_string());

    assert_eq!(trie.search(&"dog".to_string()), Some(("dog".to_string(), true)));
    assert_eq!(trie.search(&"cat".to_string()), Some(("cat".to_string(), true)))
}

#[test]
fn test_search_2() {
    let mut trie = Trie::new();
    trie.insert("dog".to_string());
    trie.insert("cat".to_string());

    assert_eq!(trie.search(&"asdf".to_string()), None);
}

#[test]
fn inserted_words_are_found_as_words() {
    let words = ["cat", "cats", "car", "dog", "do"];
    let mut trie = Trie::new();
    for w in words.iter() {
        trie.insert(w.to_string());
    }
    for w in words.iter() {
        assert_eq!(trie.search(&w.to_string()), Some((w.to_string(), true)));
    }
}

#[test]
fn prefixes_are_found_but_not_as_words() {
    let mut trie = Trie::new();
    trie.insert("catastrophe".to_string());
    assert_eq!(trie.search(&"cat".to_string()), Some(("cat".to_string(), false)));
    assert_eq!(trie.search(&"catastroph".to_string()), Some(("catastroph".to_string(), false)));
    assert_eq!(trie.search(&"catastrophes".to_string()), None);
    assert_eq!(trie.search(&"dog".to_string()), None);
}

#[test]
fn empty_text_is_root() {
    let mut trie = Trie::new();
    assert_eq!(trie.search(&String::new()), Some((String::new(), false)));
    trie.insert("a".to_string());
    assert_eq!(trie.search(&String::new()), Some((String::new(), false)));
}

#[test]
fn inserting_twice_changes_nothing() {
    let mut once = Trie::new();
    once.insert("dog".to_string());
    once.insert("dot".to_string());
    let mut twice = Trie::new();
    twice.insert("dog".to_string());
    twice.insert("dot".to_string());
    twice.insert("dog".to_string());
    assert_eq!(once, twice);
}

#[test]
fn search_on_other_letters_misses_at_first_letter() {
    let mut trie = Trie::new();
    trie.insert("ab".to_string());
    assert_eq!(trie.search(&"b".to_string()), None);
    assert_eq!(trie.search(&"ba".to_string()), None);
    assert_eq!(trie.search(&"a".to_string()), Some(("a".to_string(), false)));
}
