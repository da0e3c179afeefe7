use ordered_map::mockable::Mockable;
use ordered_map::ord_hash::render_entries;
use ordered_map::OrderedHashmap;
use std::rc::Rc;

fn entries(m: &OrderedHashmap<&'static str, i32>) -> Vec<(&'static str, i32)> {
    m.iter().cloned().collect()
}

#[test]
fn overwrite_keeps_stale_entry_in_log() {
    let mut m = OrderedHashmap::new();
    m.insert(&"a", &1);
    m.insert(&"b", &2);
    m.insert(&"a", &3);
    assert_eq!(m.len(), 2);
    assert_eq!(m.find(&"a"), Some(&3));
    assert_eq!(entries(&m), vec![("a", 1), ("b", 2), ("a", 3)]);
}

#[test]
fn empty_map_finds_nothing() {
    let m: OrderedHashmap<&'static str, i32> = OrderedHashmap::new();
    assert_eq!(m.find(&"x"), None);
    assert!(!m.contains_key(&"x"));
    assert_eq!(m.len(), 0);
    assert!(m.is_empty());
}

#[test]
fn clear_then_insert_starts_a_new_log() {
    let mut m = OrderedHashmap::new();
    m.insert(&"x", &10);
    m.clear();
    m.insert(&"x", &20);
    assert_eq!(entries(&m), vec![("x", 20)]);
}

#[test]
fn insert_reports_whether_key_is_new() {
    let mut m = OrderedHashmap::new();
    assert!(m.insert(&"a", &1));
    assert!(!m.insert(&"a", &2));
}

#[test]
fn distinct_inserts_count_each_key() {
    let mut m = OrderedHashmap::new();
    let keys = ["k0", "k1", "k2", "k3", "k4"];
    for (i, k) in keys.iter().enumerate() {
        assert!(m.insert(k, &(i as i32)));
        assert_eq!(m.len(), i + 1);
    }
    assert_eq!(m.len(), keys.len());
}

#[test]
fn overwrite_leaves_len_unchanged() {
    let mut m = OrderedHashmap::new();
    m.insert(&"a", &1);
    m.insert(&"b", &2);
    assert_eq!(m.len(), 2);
    assert!(!m.insert(&"b", &5));
    assert_eq!(m.len(), 2);
    assert!(m.insert(&"c", &6));
    assert_eq!(m.len(), 3);
}

#[test]
fn first_occurrences_follow_first_insertion() {
    let mut m = OrderedHashmap::new();
    m.insert(&"z", &1);
    m.insert(&"a", &2);
    m.insert(&"z", &3);
    m.insert(&"m", &4);
    m.insert(&"a", &5);
    let mut firsts: Vec<&str> = Vec::new();
    for (k, _) in m.iter() {
        if !firsts.contains(k) {
            firsts.push(k);
        }
    }
    assert_eq!(firsts, vec!["z", "a", "m"]);
}

#[test]
fn rev_iter_is_iter_reversed() {
    let mut m = OrderedHashmap::new();
    m.insert(&"a", &1);
    m.insert(&"b", &2);
    m.insert(&"a", &3);
    let forward = entries(&m);
    let backward: Vec<(&str, i32)> = m.rev_iter().cloned().collect();
    let mut reversed = forward.clone();
    reversed.reverse();
    assert_eq!(backward, reversed);
    assert_eq!(backward, vec![("a", 3), ("b", 2), ("a", 1)]);
}

#[test]
fn find_returns_latest_insert() {
    let mut m = OrderedHashmap::new();
    m.insert(&"a", &1);
    m.insert(&"b", &2);
    m.insert(&"a", &7);
    m.insert(&"c", &3);
    m.insert(&"b", &8);
    assert_eq!(m.find(&"a"), Some(&7));
    assert_eq!(m.find(&"b"), Some(&8));
    assert_eq!(m.find(&"c"), Some(&3));
    assert_eq!(m.find(&"d"), None);
}

#[test]
fn clear_empties_everything() {
    let mut m = OrderedHashmap::new();
    m.insert(&"a", &1);
    m.insert(&"b", &2);
    m.clear();
    assert_eq!(m.len(), 0);
    assert!(m.is_empty());
    assert_eq!(m.iter().count(), 0);
    assert!(!m.contains_key(&"a"));
}

#[test]
fn clone_is_equal_and_independent() {
    let mut m = OrderedHashmap::new();
    m.insert(&"a", &1);
    m.insert(&"b", &2);
    m.insert(&"a", &3);
    let mut c = m.clone();
    assert!(c == m);
    assert_eq!(entries(&c), entries(&m));
    c.insert(&"a", &100);
    c.insert(&"d", &4);
    if let Some(v) = c.find_mut(&"b") {
        *v = 50;
    }
    assert_eq!(m.find(&"a"), Some(&3));
    assert_eq!(m.find(&"b"), Some(&2));
    assert_eq!(m.find(&"d"), None);
    assert_eq!(m.len(), 2);
    assert!(c != m);
}

#[test]
fn find_mut_changes_value_but_not_log() {
    let mut m = OrderedHashmap::new();
    m.insert(&"a", &1);
    match m.find_mut(&"a") {
        Some(v) => *v = 9,
        None => panic!("key a is present"),
    }
    assert_eq!(m.find(&"a"), Some(&9));
    assert_eq!(entries(&m), vec![("a", 1)]);
    assert!(m.find_mut(&"q").is_none());
    assert_eq!(m.len(), 1);
}

#[test]
fn equality_sees_overwrite_history() {
    let mut a = OrderedHashmap::new();
    a.insert(&"k", &1);
    a.insert(&"k", &2);
    let mut b = OrderedHashmap::new();
    b.insert(&"k", &2);
    assert_eq!(a.find(&"k"), b.find(&"k"));
    assert!(a != b);
    let mut c = OrderedHashmap::new();
    c.insert(&"k", &1);
    c.insert(&"k", &2);
    assert!(a == c);
}

#[test]
fn equality_sees_values_changed_in_place() {
    let mut a = OrderedHashmap::new();
    a.insert(&"k", &1);
    let mut b = a.clone();
    assert!(a == b);
    if let Some(v) = b.find_mut(&"k") {
        *v = 5;
    }
    assert!(a != b);
}

#[test]
fn to_str_renders_log() {
    let mut m = OrderedHashmap::new();
    m.insert(&"a", &1);
    m.insert(&"b", &2);
    m.insert(&"a", &3);
    assert_eq!(m.to_str(), "{ a: 1,  b: 2,  a: 3}");
}

#[test]
fn to_str_single_and_empty() {
    let mut m: OrderedHashmap<&'static str, i32> = OrderedHashmap::new();
    assert_eq!(m.to_str(), "{}");
    m.insert(&"x", &-4);
    assert_eq!(m.to_str(), "{ x: -4}");
}

#[test]
fn render_entries_joins_texts() {
    let parts = vec![
        ("one".to_string(), "1".to_string()),
        ("two".to_string(), "2".to_string()),
    ];
    assert_eq!(render_entries(&parts), "{ one: 1,  two: 2}");
    assert_eq!(render_entries(&Vec::new()), "{}");
}

#[test]
fn integer_keys_work_too() {
    let mut m: OrderedHashmap<u64, u8> = OrderedHashmap::new();
    assert!(m.insert(&7, &1));
    assert!(m.insert(&3, &2));
    assert!(!m.insert(&7, &9));
    assert_eq!(m.find(&7), Some(&9));
    assert_eq!(m.iter().map(|e| e.0).collect::<Vec<u64>>(), vec![7, 3, 7]);
}

#[test]
fn mock_scalars_are_zero() {
    assert_eq!(<u8 as Mockable>::mock(3), 0);
    assert_eq!(<i8 as Mockable>::mock(0), 0);
    assert_eq!(<isize as Mockable>::mock(1), 0);
    assert_eq!(<usize as Mockable>::mock(2), 0);
    assert_eq!(<char as Mockable>::mock(0), '\0');
    assert_eq!(<String as Mockable>::mock(0), "");
    <() as Mockable>::mock(5);
}

#[test]
fn mock_option_follows_state() {
    assert_eq!(<Option<u8> as Mockable>::mock(0), Some(0));
    assert_eq!(<Option<u8> as Mockable>::mock(1), None);
    assert_eq!(<Option<u8> as Mockable>::mock(-3), None);
}

#[test]
fn mock_result_follows_state() {
    assert_eq!(<Result<u8, String> as Mockable>::mock(0), Ok(0));
    assert_eq!(<Result<u8, String> as Mockable>::mock(1), Err(String::new()));
}

#[test]
fn mock_containers_wrap_one_value() {
    assert_eq!(<Vec<u8> as Mockable>::mock(0), vec![0]);
    assert_eq!(*<Box<i8> as Mockable>::mock(0), 0);
    assert_eq!(*<Rc<usize> as Mockable>::mock(0), 0);
    assert_eq!(<Vec<Option<u8>> as Mockable>::mock(1), vec![None]);
}
