use effectful::collections::chunk::Chunk;
use effectful::collections::hash_set::{
    empty, from_iter, has, insert, is_empty, remove, size, toggle, union, values, MutableHashSet,
};
use effectful::collections::mutable_list::{ChunkBuilder, MutableList};
use effectful::collections::trie::Trie;

#[test]
fn mutable_list_shift_removes_head() {
    let mut list = MutableList::<i32>::make();
    list.append(1);
    list.append(2);
    assert_eq!(list.shift(), Some(1));
    assert_eq!(list.head(), Some(2));
    assert_eq!(list.length(), 1);
}

#[test]
fn mutable_list_tail_skips_first_element() {
    let mut list = MutableList::<i32>::make();
    list.append(10);
    list.append(20);
    list.append(30);
    let t = list.tail();
    assert_eq!(t.len(), 2);
}

#[test]
fn chunk_builder_via_mutable_list_preserves_order() {
    let mut b = ChunkBuilder::<i32>::new();
    b.append(1);
    b.append(2);
    b.append(3);
    assert_eq!(b.to_chunk().into_vec(), vec![1, 2, 3]);
}

#[test]
fn mutable_list_works_at_both_ends() {
    let mut list = MutableList::<i32>::make();
    assert_eq!(list.head(), None);
    assert_eq!(list.last(), None);
    assert_eq!(list.pop(), None);
    assert_eq!(list.shift(), None);
    assert_eq!(list.tail().len(), 0);
    list.append(2);
    list.prepend(1);
    list.append(3);
    assert_eq!(list.head(), Some(1));
    assert_eq!(list.last(), Some(3));
    assert_eq!(list.tail().into_vec(), vec![2, 3]);
    assert_eq!(list.to_chunk().into_vec(), vec![1, 2, 3]);
    assert_eq!(list.pop(), Some(3));
    assert_eq!(list.shift(), Some(1));
    assert_eq!(list.length(), 1);
    let mut seen = Vec::new();
    list.for_each(|x| seen.push(*x));
    assert_eq!(seen, vec![2]);
}

#[test]
fn chunk_basics() {
    let c = Chunk::from_vec(vec![4, 5]);
    assert_eq!(c.len(), 2);
    assert!(!c.is_empty());
    assert_eq!(c.get(1), Some(&5));
    assert_eq!(c.get(2), None);
    assert!(Chunk::<u8>::empty().is_empty());
}

#[test]
fn trie_longest_prefix_of_empty_returns_none_without_root_value() {
    let trie = Trie::<i32>::empty();
    assert_eq!(trie.longest_prefix_of("abc"), None);
}

#[test]
fn trie_keys_with_prefix_finds_all_matches() {
    let mut trie = Trie::empty();
    trie.insert("foo", 1);
    trie.insert("food", 2);
    trie.insert("bar", 3);
    let mut ks = trie.keys_with_prefix("fo");
    ks.sort();
    assert_eq!(ks, vec!["foo".to_string(), "food".to_string()]);
    assert_eq!(trie.size(), 3);
}

#[test]
fn trie_insert_get_remove() {
    let mut trie = Trie::empty();
    assert_eq!(trie.insert("ab", 1), None);
    assert_eq!(trie.insert("ab", 2), Some(1));
    assert_eq!(trie.get("ab"), Some(&2));
    assert!(trie.has("ab"));
    assert!(!trie.has("a"));
    assert_eq!(trie.get("abc"), None);
    assert_eq!(trie.remove("a"), None);
    assert_eq!(trie.remove("ab"), Some(2));
    assert!(!trie.has("ab"));
    assert_eq!(trie.size(), 0);
    assert_eq!(trie.remove("zzz"), None);
}

#[test]
fn trie_keys_come_out_in_order_with_values() {
    let mut trie = Trie::empty();
    trie.insert("b", 2);
    trie.insert("ab", 1);
    trie.insert("a", 0);
    trie.insert("", 9);
    trie.insert("ba", 3);
    assert_eq!(trie.keys_with_prefix(""), vec!["", "a", "ab", "b", "ba"]);
    assert_eq!(trie.keys_with_prefix("b"), vec!["b", "ba"]);
    assert!(trie.keys_with_prefix("c").is_empty());
    let entries: Vec<(String, i32)> = trie.entries_with_prefix("a").into_iter().map(|(k, v)| (k, *v)).collect();
    assert_eq!(entries, vec![(String::from("a"), 0), (String::from("ab"), 1)]);
    assert_eq!(trie.size(), 5);
}

#[test]
fn trie_longest_prefix_of_picks_the_longest_stored_key() {
    let mut trie = Trie::empty();
    trie.insert("a", 1);
    trie.insert("abc", 2);
    trie.insert("abcde", 3);
    assert_eq!(trie.longest_prefix_of("abcd"), Some("abc"));
    assert_eq!(trie.longest_prefix_of("abcdef"), Some("abcde"));
    assert_eq!(trie.longest_prefix_of("ab"), Some("a"));
    assert_eq!(trie.longest_prefix_of("b"), None);
    trie.insert("", 0);
    assert_eq!(trie.longest_prefix_of("b"), Some(""));
    assert_eq!(trie.longest_prefix_of("é"), Some(""));
}

#[test]
fn hash_set_toggle_adds_then_removes() {
    let s = empty();
    let (s, now_in) = toggle(&s, 5);
    assert!(now_in);
    assert!(has(&s, &5));
    let (s, now_in) = toggle(&s, 5);
    assert!(!now_in);
    assert!(!has(&s, &5));
}

#[test]
fn mutable_set_toggle_matches_immutable_semantics() {
    let mut m = MutableHashSet::new();
    assert!(m.toggle(7));
    assert!(m.has(&7));
    assert!(!m.toggle(7));
    assert!(!m.has(&7));
}

#[test]
fn persistent_set_operations() {
    let s = from_iter(vec![3, 1, 3, 2]);
    assert_eq!(size(&s), 3);
    assert!(!is_empty(&s));
    assert!(is_empty(&empty()));
    let t = insert(&s, 9);
    assert!(has(&t, &9));
    assert!(!has(&s, &9));
    let u = remove(&t, &1);
    assert!(!has(&u, &1));
    assert_eq!(size(&u), 3);
    let w = union(from_iter(vec![1]), from_iter(vec![2, 5]));
    let mut v = values(&w);
    v.sort();
    assert_eq!(v, vec![1, 2, 5]);
}

#[test]
fn mutable_set_operations() {
    let mut m = MutableHashSet::new();
    assert!(m.is_empty());
    m.insert(String::from("a"));
    m.insert(String::from("a"));
    m.insert(String::from("b"));
    assert_eq!(m.size(), 2);
    assert!(m.has("a"));
    assert!(m.remove("a"));
    assert!(!m.remove("a"));
    assert_eq!(m.size(), 1);
}
