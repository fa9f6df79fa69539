use lru_cache::lru::Entry;
use lru_cache::LRUCache;
use std::cell::RefCell;
use std::rc::Rc;

fn s(text: &str) -> String {
    String::from(text)
}

fn quiet(max_bytes: u64) -> LRUCache<fn(String, String)> {
    LRUCache::new(max_bytes, None)
}

#[test]
fn test_get() {
    let mut cache = LRUCache::<fn(String, String)>::new(1024, None);
    cache.set(String::from("key1"), String::from("123"));
    assert_eq!(cache.get(String::from("key1")), Some(String::from("123")));
    assert_eq!(cache.get(String::from("key2")), None);
}

#[test]
fn test_set() {
    let mut cache = LRUCache::<fn(String, String)>::new(1024, None);
    cache.set(String::from("key"), String::from("1"));
    cache.set(String::from("key"), String::from("111"));
    assert_eq!(
        cache.cur_bytes(),
        (String::from("key").len() + String::from("111").len()) as u64
    );
}

#[test]
fn test_remove_oldest() {
    let mut cache = LRUCache::<fn(String, String)>::new(6, None);
    cache.set(String::from("0"), String::from("0"));
    cache.set(String::from("1"), String::from("1"));
    cache.set(String::from("2"), String::from("2"));
    cache.set(String::from("3"), String::from("3"));
    assert_eq!(cache.get(String::from("0")), None);
    assert_eq!(cache.get(String::from("1")), Some(String::from("1")));
    assert_eq!(cache.get(String::from("2")), Some(String::from("2")));
    assert_eq!(cache.get(String::from("3")), Some(String::from("3")));
}

#[test]
fn entry_size_is_key_bytes_plus_value_bytes() {
    assert_eq!(Entry::new(s("key"), s("111")).size(), 6);
    assert_eq!(Entry::new(s(""), s("")).size(), 0);
    assert_eq!(Entry::new(s("k"), s("")).size(), 1);
    assert_eq!(Entry::new(s(""), s("value")).size(), 5);
}

#[test]
fn entry_size_counts_bytes_not_characters() {
    assert_eq!(Entry::new(s("é"), s("日本")).size(), 2 + 6);
    assert_eq!(Entry::new(s("🦀"), s("a")).size(), 4 + 1);
}

#[test]
fn new_cache_is_empty() {
    let mut cache = quiet(10);
    assert_eq!(cache.cur_bytes(), 0);
    assert_eq!(cache.get(s("anything")), None);
    cache.remove();
    assert_eq!(cache.cur_bytes(), 0);
}

#[test]
fn unbounded_cache_keeps_everything() {
    let mut cache = quiet(0);
    cache.set(s("key1"), s("123"));
    assert_eq!(cache.get(s("key1")), Some(s("123")));
    assert_eq!(cache.get(s("key2")), None);
    let mut expected = 7;
    for i in 0..200 {
        let key = format!("k{}", i);
        let value = format!("value{}", i);
        expected += (key.len() + value.len()) as u64;
        cache.set(key, value);
    }
    assert_eq!(cache.cur_bytes(), expected);
    assert_eq!(cache.get(s("key1")), Some(s("123")));
    assert_eq!(cache.get(s("k0")), Some(s("value0")));
    assert_eq!(cache.get(s("k199")), Some(s("value199")));
}

#[test]
fn update_in_place_keeps_one_entry() {
    let mut cache = quiet(1024);
    cache.set(s("key"), s("1"));
    assert_eq!(cache.cur_bytes(), 4);
    cache.set(s("key"), s("111"));
    assert_eq!(cache.cur_bytes(), 6);
    assert_eq!(cache.get(s("key")), Some(s("111")));
    cache.remove();
    assert_eq!(cache.cur_bytes(), 0);
    assert_eq!(cache.get(s("key")), None);
}

#[test]
fn update_changes_bytes_by_the_difference_of_sizes() {
    let mut cache = quiet(0);
    cache.set(s("a"), s("12345"));
    cache.set(s("b"), s("xy"));
    assert_eq!(cache.cur_bytes(), 6 + 3);
    cache.set(s("a"), s("1"));
    assert_eq!(cache.cur_bytes(), 2 + 3);
    cache.set(s("b"), s("xyzw"));
    assert_eq!(cache.cur_bytes(), 2 + 5);
    assert_eq!(cache.get(s("a")), Some(s("1")));
    assert_eq!(cache.get(s("b")), Some(s("xyzw")));
}

#[test]
fn set_then_get_returns_the_value() {
    let mut cache = quiet(16);
    cache.set(s("alpha"), s("one"));
    assert_eq!(cache.get(s("alpha")), Some(s("one")));
    cache.set(s("alpha"), s("two"));
    assert_eq!(cache.get(s("alpha")), Some(s("two")));
    cache.set(s("beta"), s("three"));
    assert_eq!(cache.get(s("beta")), Some(s("three")));
}

#[test]
fn eviction_under_pressure() {
    let mut cache = quiet(6);
    cache.set(s("0"), s("0"));
    cache.set(s("1"), s("1"));
    cache.set(s("2"), s("2"));
    assert_eq!(cache.cur_bytes(), 6);
    cache.set(s("3"), s("3"));
    assert_eq!(cache.cur_bytes(), 6);
    assert_eq!(cache.get(s("0")), None);
    assert_eq!(cache.get(s("1")), Some(s("1")));
    assert_eq!(cache.get(s("2")), Some(s("2")));
    assert_eq!(cache.get(s("3")), Some(s("3")));
}

#[test]
fn promotion_changes_eviction_victim() {
    let mut cache = quiet(6);
    cache.set(s("a"), s("a"));
    cache.set(s("b"), s("b"));
    cache.set(s("c"), s("c"));
    assert_eq!(cache.get(s("a")), Some(s("a")));
    cache.set(s("d"), s("d"));
    assert_eq!(cache.get(s("b")), None);
    assert_eq!(cache.get(s("a")), Some(s("a")));
    assert_eq!(cache.get(s("c")), Some(s("c")));
    assert_eq!(cache.get(s("d")), Some(s("d")));
}

#[test]
fn a_write_to_an_old_key_promotes_it() {
    let mut cache = quiet(6);
    cache.set(s("a"), s("a"));
    cache.set(s("b"), s("b"));
    cache.set(s("c"), s("c"));
    cache.set(s("a"), s("A"));
    cache.set(s("d"), s("d"));
    assert_eq!(cache.get(s("b")), None);
    assert_eq!(cache.get(s("a")), Some(s("A")));
    cache.set(s("e"), s("e"));
    assert_eq!(cache.get(s("c")), None);
    assert_eq!(cache.get(s("d")), Some(s("d")));
}

#[test]
fn a_miss_changes_nothing() {
    let mut cache = quiet(4);
    cache.set(s("a"), s("a"));
    cache.set(s("b"), s("b"));
    assert_eq!(cache.get(s("zz")), None);
    assert_eq!(cache.cur_bytes(), 4);
    cache.set(s("c"), s("c"));
    assert_eq!(cache.get(s("a")), None);
    assert_eq!(cache.get(s("b")), Some(s("b")));
}

#[test]
fn callback_is_told_of_each_eviction_oldest_first() {
    let log: Rc<RefCell<Vec<(String, String)>>> = Rc::new(RefCell::new(Vec::new()));
    let sink = Rc::clone(&log);
    let mut cache = LRUCache::new(
        6,
        Some(move |key: String, value: String| sink.borrow_mut().push((key, value))),
    );
    cache.set(s("0"), s("a"));
    cache.set(s("1"), s("b"));
    cache.set(s("2"), s("c"));
    assert!(log.borrow().is_empty());
    cache.set(s("3"), s("d"));
    assert_eq!(*log.borrow(), vec![(s("0"), s("a"))]);
    cache.set(s("4"), s("wxyz"));
    assert_eq!(
        *log.borrow(),
        vec![(s("0"), s("a")), (s("1"), s("b")), (s("2"), s("c")), (s("3"), s("d"))]
    );
    assert_eq!(cache.cur_bytes(), 5);
    assert_eq!(cache.get(s("4")), Some(s("wxyz")));
    assert_eq!(log.borrow().len(), 4);
}

#[test]
fn callback_is_not_told_of_updates_or_reads() {
    let log: Rc<RefCell<Vec<(String, String)>>> = Rc::new(RefCell::new(Vec::new()));
    let sink = Rc::clone(&log);
    let mut cache = LRUCache::new(
        100,
        Some(move |key: String, value: String| sink.borrow_mut().push((key, value))),
    );
    cache.set(s("k"), s("1"));
    cache.set(s("k"), s("2"));
    assert_eq!(cache.get(s("k")), Some(s("2")));
    assert_eq!(cache.get(s("other")), None);
    assert!(log.borrow().is_empty());
}

#[test]
fn remove_evicts_the_least_recently_used_entry() {
    let log: Rc<RefCell<Vec<(String, String)>>> = Rc::new(RefCell::new(Vec::new()));
    let sink = Rc::clone(&log);
    let mut cache = LRUCache::new(
        0,
        Some(move |key: String, value: String| sink.borrow_mut().push((key, value))),
    );
    cache.set(s("a"), s("1"));
    cache.set(s("b"), s("22"));
    cache.set(s("c"), s("333"));
    assert_eq!(cache.get(s("a")), Some(s("1")));
    cache.remove();
    assert_eq!(*log.borrow(), vec![(s("b"), s("22"))]);
    assert_eq!(cache.cur_bytes(), 2 + 4);
    assert_eq!(cache.get(s("b")), None);
    cache.remove();
    cache.remove();
    assert_eq!(
        *log.borrow(),
        vec![(s("b"), s("22")), (s("c"), s("333")), (s("a"), s("1"))]
    );
    assert_eq!(cache.cur_bytes(), 0);
    cache.remove();
    assert_eq!(log.borrow().len(), 3);
    assert_eq!(cache.cur_bytes(), 0);
}

#[test]
fn an_entry_over_the_budget_empties_the_cache() {
    let log: Rc<RefCell<Vec<(String, String)>>> = Rc::new(RefCell::new(Vec::new()));
    let sink = Rc::clone(&log);
    let mut cache = LRUCache::new(
        3,
        Some(move |key: String, value: String| sink.borrow_mut().push((key, value))),
    );
    cache.set(s("a"), s("b"));
    cache.set(s("long"), s("value"));
    assert_eq!(cache.cur_bytes(), 0);
    assert_eq!(cache.get(s("long")), None);
    assert_eq!(cache.get(s("a")), None);
    assert_eq!(
        *log.borrow(),
        vec![(s("a"), s("b")), (s("long"), s("value"))]
    );
    cache.set(s("c"), s("d"));
    assert_eq!(cache.get(s("c")), Some(s("d")));
    assert_eq!(cache.cur_bytes(), 2);
}

#[test]
fn an_update_over_the_budget_evicts_older_entries() {
    let mut cache = quiet(6);
    cache.set(s("a"), s("a"));
    cache.set(s("b"), s("b"));
    cache.set(s("c"), s("c"));
    cache.set(s("a"), s("aaaa"));
    assert_eq!(cache.cur_bytes(), 5);
    assert_eq!(cache.get(s("b")), None);
    assert_eq!(cache.get(s("c")), None);
    assert_eq!(cache.get(s("a")), Some(s("aaaa")));
}

#[test]
fn an_entry_of_exactly_the_budget_stays() {
    let mut cache = quiet(4);
    cache.set(s("ab"), s("cd"));
    assert_eq!(cache.cur_bytes(), 4);
    assert_eq!(cache.get(s("ab")), Some(s("cd")));
    cache.set(s("x"), s("y"));
    assert_eq!(cache.cur_bytes(), 2);
    assert_eq!(cache.get(s("ab")), None);
    assert_eq!(cache.get(s("x")), Some(s("y")));
}

#[test]
fn bytes_are_the_sum_of_sizes_and_within_budget() {
    let max = 40;
    let mut cache = quiet(max);
    let mut live: Vec<(String, String)> = Vec::new();
    for i in 0..60 {
        let key = format!("k{}", i % 17);
        let value = "v".repeat(i % 9);
        cache.set(key.clone(), value.clone());
        live.retain(|(k, _)| *k != key);
        live.push((key, value));
        let mut sum: u64 = live.iter().map(|(k, v)| (k.len() + v.len()) as u64).sum();
        while sum > max {
            let (k, v) = live.remove(0);
            sum -= (k.len() + v.len()) as u64;
        }
        assert_eq!(cache.cur_bytes(), sum);
        assert!(cache.cur_bytes() <= max);
    }
    for (k, v) in live.clone() {
        assert_eq!(cache.get(k), Some(v));
    }
    for i in 0..17 {
        let key = format!("k{}", i);
        if !live.iter().any(|(k, _)| *k == key) {
            assert_eq!(cache.get(key), None);
        }
    }
}

#[test]
fn keys_are_compared_as_whole_texts() {
    let mut cache = quiet(0);
    cache.set(s("a"), s("1"));
    cache.set(s("ab"), s("2"));
    cache.set(s(""), s("3"));
    assert_eq!(cache.get(s("a")), Some(s("1")));
    assert_eq!(cache.get(s("ab")), Some(s("2")));
    assert_eq!(cache.get(s("")), Some(s("3")));
    assert_eq!(cache.get(s("b")), None);
    assert_eq!(cache.cur_bytes(), 2 + 3 + 1);
}

#[test]
fn budget_counts_bytes_of_multibyte_text() {
    let mut cache = quiet(8);
    cache.set(s("é"), s("é"));
    cache.set(s("ü"), s("ü"));
    assert_eq!(cache.cur_bytes(), 8);
    cache.set(s("a"), s("b"));
    assert_eq!(cache.cur_bytes(), 6);
    assert_eq!(cache.get(s("é")), None);
    assert_eq!(cache.get(s("ü")), Some(s("ü")));
}

#[test]
fn an_evicted_key_leaves_index_and_list_together() {
    let mut cache = quiet(4);
    cache.set(s("a"), s("1"));
    cache.set(s("b"), s("2"));
    cache.set(s("c"), s("3"));
    assert_eq!(cache.get(s("a")), None);
    assert_eq!(cache.cur_bytes(), 4);
    cache.set(s("a"), s("9"));
    assert_eq!(cache.get(s("b")), None);
    assert_eq!(cache.get(s("c")), Some(s("3")));
    assert_eq!(cache.get(s("a")), Some(s("9")));
    assert_eq!(cache.cur_bytes(), 4);
    cache.remove();
    cache.remove();
    assert_eq!(cache.cur_bytes(), 0);
    assert_eq!(cache.get(s("a")), None);
    assert_eq!(cache.get(s("c")), None);
}

#[test]
fn an_update_keeps_the_number_of_entries() {
    let log: Rc<RefCell<Vec<(String, String)>>> = Rc::new(RefCell::new(Vec::new()));
    let sink = Rc::clone(&log);
    let mut cache = LRUCache::new(
        0,
        Some(move |key: String, value: String| sink.borrow_mut().push((key, value))),
    );
    cache.set(s("a"), s("1"));
    cache.set(s("b"), s("2"));
    cache.set(s("a"), s("333"));
    assert_eq!(cache.cur_bytes(), 2 + 4);
    cache.remove();
    cache.remove();
    cache.remove();
    assert_eq!(*log.borrow(), vec![(s("b"), s("2")), (s("a"), s("333"))]);
}
