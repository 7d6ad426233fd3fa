use playground_rs::data_structure::trie::{Trie, TrieImpl, TrieWalk};

fn key(s: &str) -> Vec<char> {
    s.chars().collect()
}

fn attached(trie: &Trie<u32>, s: &str) -> Option<u32> {
    let k = key(s);
    let mut walker = trie.walk(&k);
    let mut node = trie;
    for _ in 0..k.len() {
        node = walker.next()?;
    }
    node.attached_info
}

#[test]
fn a_new_trie_holds_nothing() {
    let trie: Trie<u32> = TrieImpl::new_root();
    assert_eq!(attached(&trie, ""), None);
    assert_eq!(attached(&trie, "a"), None);
    let boxed: Box<Trie<u32>> = TrieImpl::new_boxed_root();
    assert!(boxed.next.is_empty());
    assert!(boxed.attached_info.is_none());
}

#[test]
fn insert_attaches_to_the_key_only() {
    let mut trie: Trie<u32> = TrieImpl::new_root();
    trie.insert(&key("ab"), 1);
    trie.insert(&key("a"), 2);
    trie.insert(&key("abc"), 3);
    trie.insert(&key("b"), 4);
    assert_eq!(attached(&trie, "ab"), Some(1));
    assert_eq!(attached(&trie, "a"), Some(2));
    assert_eq!(attached(&trie, "abc"), Some(3));
    assert_eq!(attached(&trie, "b"), Some(4));
    assert_eq!(attached(&trie, ""), None);
    assert_eq!(attached(&trie, "abd"), None);
    assert_eq!(attached(&trie, "ba"), None);
    trie.insert(&key("ab"), 9);
    assert_eq!(attached(&trie, "ab"), Some(9));
    assert_eq!(attached(&trie, "abc"), Some(3));
    trie.insert(&key(""), 5);
    assert_eq!(attached(&trie, ""), Some(5));
}

#[test]
fn a_walk_ends_where_no_child_stands() {
    let mut trie: Trie<u32> = TrieImpl::new_root();
    trie.insert(&key("ab"), 1);
    let k = key("abx");
    let mut walker = trie.walk(&k);
    assert_eq!(walker.next().unwrap().attached_info, None);
    assert_eq!(walker.next().unwrap().attached_info, Some(1));
    assert!(walker.next().is_none());
    assert!(walker.next().is_none());
    let k = key("ab");
    let mut walker = trie.walk(&k);
    assert!(walker.next().is_some());
    assert!(walker.next().is_some());
    assert!(walker.next().is_none());
}

struct Depth(usize);

impl<S> TrieWalk<S> for Depth {
    fn root() -> Self {
        Depth(0)
    }

    fn build(parent_node: &TrieImpl<Self, S>, _c: char) -> Self {
        Depth(parent_node.walk_info.0 + 1)
    }

    fn walk<'a>(node: &'a TrieImpl<Self, S>, c: char) -> Option<&'a TrieImpl<Self, S>> {
        node.next.get(&(c as u32)).map(|n| &**n)
    }
}

#[test]
fn a_node_is_built_from_its_parent() {
    let mut trie: TrieImpl<Depth, ()> = TrieImpl::new_root();
    trie.insert(&key("abc"), ());
    let k = key("abc");
    let mut walker = trie.walk(&k);
    assert_eq!(walker.next().unwrap().walk_info.0, 1);
    assert_eq!(walker.next().unwrap().walk_info.0, 2);
    assert_eq!(walker.next().unwrap().walk_info.0, 3);
    assert_eq!(trie.walk_info.0, 0);
}
