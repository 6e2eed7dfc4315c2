use rcli::zipmap::ZipMap;
use std::cmp::max;
use std::collections::HashMap;
use std::time::{Duration, Instant, SystemTime, UNIX_EPOCH};

fn rand_usize(m: usize) -> usize {
    let mut seed = SystemTime::now()
        .duration_since(UNIX_EPOCH)
        .unwrap()
        .as_nanos() as usize;
    seed = seed.wrapping_mul(6364136223846793005).wrapping_add(1);
    max(seed % m, 1)
}

fn random_string(len: usize) -> String {
    let charset: &[u8] = b"ABCDEFGHIJKLMNOPQRSTUVWXYZ\
                           abcdefghijklmnopqrstuvwxyz\
                           0123456789";

    let mut result = String::with_capacity(len);
    let mut seed = SystemTime::now()
        .duration_since(UNIX_EPOCH)
        .unwrap()
        .as_nanos() as u64;

    for _ in 0..len {
        seed = seed.wrapping_mul(6364136223846793005).wrapping_add(1);
        let idx = (seed % charset.len() as u64) as usize;
        result.push(charset[idx] as char);
    }
    result
}

fn collect(zm: &mut ZipMap) -> Vec<(String, String)> {
    let mut out = Vec::new();
    zm.rewind();
    while let Some((k, v)) = zm.next() {
        out.push((k.to_string(), v.to_string()));
    }
    out
}

#[test]
fn test_zipmap_basic() {
    let mut zm = ZipMap::new();

    zm.set("a", "1");
    zm.set("b", "22");
    zm.set("c", "333");

    assert_eq!(zm.len(), 3);

    assert_eq!(zm.get("a"), Some("1"));
    assert_eq!(zm.get("b"), Some("22"));
    assert_eq!(zm.get("c"), Some("333"));
    assert_eq!(zm.get("d"), None);

    zm.set("a", "999");
    assert_eq!(zm.get("a"), Some("999"));
    assert_eq!(zm.get("b"), Some("22"));
    assert_eq!(zm.get("c"), Some("333"));
    assert_eq!(zm.get("d"), None);

    assert!(zm.del("b"));
    assert_eq!(zm.len(), 2);
    assert_eq!(zm.get("a"), Some("999"));
    assert_eq!(zm.get("b"), None);
    assert_eq!(zm.get("c"), Some("333"));
    assert_eq!(zm.get("d"), None);

    zm.rewind();
    while let Some((k, v)) = zm.next() {
        println!("{}: {}", k, v);
    }
}

#[test]
fn test_zipmap_random() {
    let mut zm = ZipMap::new();
    let mut map = HashMap::new();

    const TEST_COUNT: usize = 1000;
    const MAX_KEY_LEN: usize = 2;
    const MAX_VAL_LEN: usize = 10;

    for i in 0..100 {
        for _ in 0..TEST_COUNT {
            let key = random_string(rand_usize(MAX_KEY_LEN));
            let val = random_string(rand_usize(MAX_VAL_LEN));

            zm.set(&key, &val);
            map.insert(key.clone(), val.clone());
        }

        let keys_to_delete: Vec<_> = map.keys().take(rand_usize(MAX_VAL_LEN)).cloned().collect();
        for key in keys_to_delete {
            zm.del(&key);
            map.remove(&key);
        }

        for (k, v) in &map {
            assert_eq!(zm.get(k).unwrap(), v);
        }
        println!("Round {} passed", i + 1);
    }
}

#[test]
fn test_performance() {
    const TEST_COUNT: usize = 10000;
    const MAX_KEY_LEN: usize = 10;
    const MAX_VAL_LEN: usize = 20;
    const MAX_ELEMS: usize = 10;

    let mut key_lens = Vec::new();
    let mut val_lens = Vec::new();
    let mut elem_counts = Vec::new();

    let mut zm_insert_times = Vec::new();
    let mut zm_get_times = Vec::new();
    let mut zm_del_times = Vec::new();

    let mut hm_insert_times = Vec::new();
    let mut hm_get_times = Vec::new();
    let mut hm_del_times = Vec::new();

    for _ in 0..TEST_COUNT {
        let n = rand_usize(MAX_ELEMS);
        elem_counts.push(n);

        let keys: Vec<String> = (0..n).map(|_| random_string(rand_usize(MAX_KEY_LEN))).collect();
        let vals: Vec<String> = (0..n).map(|_| random_string(rand_usize(MAX_VAL_LEN))).collect();

        key_lens.extend(keys.iter().map(|k| k.len()));
        val_lens.extend(vals.iter().map(|v| v.len()));

        let mut zm = ZipMap::new();
        let start = Instant::now();
        for i in 0..n {
            zm.set(&keys[i], &vals[i]);
        }
        zm_insert_times.push(start.elapsed());

        let start = Instant::now();
        for i in 0..n {
            zm.get(&keys[i]);
        }
        zm_get_times.push(start.elapsed());

        let start = Instant::now();
        for i in 0..n {
            zm.del(&keys[i]);
        }
        zm_del_times.push(start.elapsed());

        let mut hm = HashMap::new();
        let start = Instant::now();
        for i in 0..n {
            hm.insert(keys[i].clone(), vals[i].clone());
        }
        hm_insert_times.push(start.elapsed());

        let start = Instant::now();
        for i in 0..n {
            hm.get(&keys[i]);
        }
        hm_get_times.push(start.elapsed());

        let start = Instant::now();
        for i in 0..n {
            hm.remove(&keys[i]);
        }
        hm_del_times.push(start.elapsed());
    }

    let key_max = key_lens.iter().max().unwrap();
    let key_min = key_lens.iter().min().unwrap();
    let key_avg = key_lens.iter().sum::<usize>() as f64 / key_lens.len() as f64;

    let val_max = val_lens.iter().max().unwrap();
    let val_min = val_lens.iter().min().unwrap();
    let val_avg = val_lens.iter().sum::<usize>() as f64 / val_lens.len() as f64;

    let count_max = elem_counts.iter().max().unwrap();
    let count_min = elem_counts.iter().min().unwrap();
    let count_avg = elem_counts.iter().sum::<usize>() as f64 / elem_counts.len() as f64;

    let max = |v: &Vec<Duration>| *v.iter().max().unwrap();
    let min = |v: &Vec<Duration>| *v.iter().min().unwrap();
    let avg = |v: &Vec<Duration>| v.iter().sum::<Duration>() / v.len() as u32;

    println!("--- Key/Val length & element count ---");
    println!("Key length  : avg={:.2}, min={}, max={}", key_avg, key_min, key_max);
    println!("Val length  : avg={:.2}, min={}, max={}", val_avg, val_min, val_max);
    println!("Element count: avg={:.2}, min={}, max={}", count_avg, count_min, count_max);

    println!("--- ZipMap performance ---");
    println!(
        "Insert: avg={:?}, min={:?}, max={:?}",
        avg(&zm_insert_times),
        min(&zm_insert_times),
        max(&zm_insert_times)
    );
    println!("Get   : avg={:?}, min={:?}, max={:?}", avg(&zm_get_times), min(&zm_get_times), max(&zm_get_times));
    println!("Del   : avg={:?}, min={:?}, max={:?}", avg(&zm_del_times), min(&zm_del_times), max(&zm_del_times));

    println!("--- HashMap performance ---");
    println!(
        "Insert: avg={:?}, min={:?}, max={:?}",
        avg(&hm_insert_times),
        min(&hm_insert_times),
        max(&hm_insert_times)
    );
    println!("Get   : avg={:?}, min={:?}, max={:?}", avg(&hm_get_times), min(&hm_get_times), max(&hm_get_times));
    println!("Del   : avg={:?}, min={:?}, max={:?}", avg(&hm_del_times), min(&hm_del_times), max(&hm_del_times));
}

#[test]
fn empty_map_is_header_only() {
    let mut zm = ZipMap::new();
    assert_eq!(zm.as_bytes(), &[0u8][..]);
    assert_eq!(zm.len(), 0);
    assert_eq!(zm.get(""), None);
    assert!(!zm.del("x"));
    zm.rewind();
    assert!(zm.next().is_none());
    assert_eq!(zm.repr(), "{ }");
}

#[test]
fn example_sequence() {
    let mut zm = ZipMap::new();
    zm.set("a", "1");
    zm.set("b", "22");
    zm.set("c", "333");
    assert_eq!(zm.len(), 3);
    assert_eq!(zm.get("a"), Some("1"));
    zm.set("a", "999");
    assert_eq!(zm.get("a"), Some("999"));
    assert_eq!(zm.get("b"), Some("22"));
    assert!(zm.del("b"));
    assert_eq!(zm.len(), 2);
    assert_eq!(zm.get("b"), None);
}

#[test]
fn byte_layout_of_entries() {
    let mut zm = ZipMap::new();
    zm.set("a", "1");
    zm.set("bc", "");
    assert_eq!(zm.as_bytes(), &[2u8, 1, b'a', 1, b'1', 0, 2, b'b', b'c', 0, 0][..]);
}

#[test]
fn round_trip_with_other_keys_between() {
    let mut zm = ZipMap::new();
    zm.set("k", "first");
    zm.set("x", "1");
    zm.set("k", "second");
    zm.set("y", "2");
    zm.set("x", "3");
    assert_eq!(zm.get("k"), Some("second"));
    assert_eq!(zm.get("x"), Some("3"));
    assert_eq!(zm.get("y"), Some("2"));
}

#[test]
fn setting_same_key_keeps_one_entry() {
    let mut zm = ZipMap::new();
    for v in ["a", "bbbb", "cc", "", "dddddddd"] {
        zm.set("same", v);
    }
    zm.set("other", "o");
    assert_eq!(zm.len(), 2);
    let entries = collect(&mut zm);
    assert_eq!(entries.len(), 2);
    assert_eq!(entries.iter().filter(|(k, _)| k == "same").count(), 1);
    assert!(zm.contains_key("same"));
    assert!(!zm.contains_key("missing"));
}

#[test]
fn delete_counts_and_absent_key() {
    let mut zm = ZipMap::new();
    zm.set("a", "1");
    zm.set("b", "2");
    zm.set("c", "3");
    let before = zm.as_bytes().to_vec();
    assert!(!zm.del("zz"));
    assert_eq!(zm.as_bytes(), &before[..]);
    assert_eq!(zm.len(), 3);
    assert!(zm.del("b"));
    assert_eq!(zm.len(), 2);
    assert_eq!(zm.get("b"), None);
    assert_eq!(zm.as_bytes(), &[2u8, 1, b'a', 1, b'1', 0, 1, b'c', 1, b'3', 0][..]);
    assert!(!zm.del("b"));
}

#[test]
fn shrink_then_grow_reuses_slack() {
    let mut zm = ZipMap::new();
    zm.set("k", "abcdef");
    zm.set("z", "tail");
    let len0 = zm.as_bytes().len();
    zm.set("k", "ab");
    assert_eq!(zm.as_bytes().len(), len0);
    // value "ab", then four reserved bytes counted by the slack byte
    assert_eq!(&zm.as_bytes()[1..7], &[1u8, b'k', 2, b'a', b'b', 4][..]);
    zm.set("k", "xyzw");
    assert_eq!(zm.as_bytes().len(), len0);
    assert_eq!(zm.get("k"), Some("xyzw"));
    assert_eq!(zm.get("z"), Some("tail"));
    // the other entry has not moved
    assert_eq!(len0, 19);
    assert_eq!(&zm.as_bytes()[11..], &[1u8, b'z', 4, b't', b'a', b'i', b'l', 0][..]);
    let entries = collect(&mut zm);
    assert_eq!(entries, vec![("k".to_string(), "xyzw".to_string()), ("z".to_string(), "tail".to_string())]);
}

#[test]
fn growing_past_reserve_moves_entry_to_end() {
    let mut zm = ZipMap::new();
    zm.set("k", "ab");
    zm.set("z", "t");
    zm.set("k", "abcdefgh");
    let entries = collect(&mut zm);
    assert_eq!(entries, vec![("z".to_string(), "t".to_string()), ("k".to_string(), "abcdefgh".to_string())]);
    assert_eq!(zm.len(), 2);
}

#[test]
fn value_of_length_254_uses_long_prefix() {
    let mut zm = ZipMap::new();
    let v = "v".repeat(254);
    zm.set("k", &v);
    assert_eq!(zm.get("k"), Some(v.as_str()));
    assert_eq!(&zm.as_bytes()[..7], &[1u8, 1, b'k', 254, 0, 0, 254][..]);
    assert_eq!(zm.as_bytes().len(), 1 + 2 + 4 + 254 + 1);
    let w = "w".repeat(253);
    zm.set("j", &w);
    assert_eq!(zm.get("j"), Some(w.as_str()));
    assert_eq!(zm.get("k"), Some(v.as_str()));
}

#[test]
fn long_key_and_value_round_trip() {
    let mut zm = ZipMap::new();
    let k = "K".repeat(70000);
    let v = "V".repeat(300);
    zm.set(&k, &v);
    zm.set("small", "s");
    assert_eq!(zm.get(&k), Some(v.as_str()));
    assert_eq!(&zm.as_bytes()[1..5], &[254u8, 1, 17, 112][..]);
    assert!(zm.del(&k));
    assert_eq!(zm.get("small"), Some("s"));
    assert_eq!(zm.len(), 1);
}

#[test]
fn iteration_yields_entries_in_order() {
    let mut zm = ZipMap::new();
    zm.set("one", "1");
    zm.set("two", "2");
    zm.set("three", "3");
    assert!(zm.del("two"));
    zm.set("four", "4");
    let entries = collect(&mut zm);
    assert_eq!(entries.len(), zm.len());
    assert_eq!(
        entries,
        vec![
            ("one".to_string(), "1".to_string()),
            ("three".to_string(), "3".to_string()),
            ("four".to_string(), "4".to_string()),
        ]
    );
    assert!(zm.next().is_none());
    zm.rewind();
    assert_eq!(zm.next(), Some(("one", "1")));
}

#[test]
fn repr_lists_entries() {
    let mut zm = ZipMap::new();
    zm.set("a", "1");
    zm.set("é", "ü");
    assert_eq!(zm.repr(), "{ a: 1, é: ü, }");
}

#[test]
fn count_beyond_header_range() {
    let mut zm = ZipMap::new();
    for i in 0..300 {
        zm.set(&format!("key{}", i), "v");
    }
    assert_eq!(zm.len(), 300);
    assert_eq!(zm.as_bytes()[0], 254);
    for i in 0..100 {
        assert!(zm.del(&format!("key{}", i)));
    }
    assert_eq!(zm.len(), 200);
    assert_eq!(zm.get("key150"), Some("v"));
}

#[test]
fn set_refuses_oversized_key_and_keeps_map() {
    let mut zm = ZipMap::new();
    assert!(zm.set("a", "1"));
    let before = zm.as_bytes().to_vec();
    let big = "k".repeat(16777216);
    assert!(!zm.set(&big, "v"));
    assert!(!zm.set("b", &big));
    assert_eq!(zm.as_bytes(), &before[..]);
    let limit = "k".repeat(16777215);
    assert!(zm.set(&limit, "v"));
    assert_eq!(zm.get(&limit), Some("v"));
    assert_eq!(zm.len(), 2);
}

#[test]
fn same_set_twice_leaves_buffer_unchanged() {
    let mut zm = ZipMap::new();
    zm.set("k", "long value");
    zm.set("z", "1");
    zm.set("k", "short");
    let before = zm.as_bytes().to_vec();
    assert!(zm.set("k", "short"));
    assert_eq!(zm.as_bytes(), &before[..]);
}

#[test]
fn example_storage_order_after_regrow() {
    let mut zm = ZipMap::new();
    zm.set("a", "1");
    zm.set("b", "22");
    zm.set("c", "333");
    zm.set("a", "999");
    assert!(zm.del("b"));
    let entries = collect(&mut zm);
    assert_eq!(entries, vec![("c".to_string(), "333".to_string()), ("a".to_string(), "999".to_string())]);
    assert_eq!(zm.as_bytes(), &[2u8, 1, b'c', 3, b'3', b'3', b'3', 0, 1, b'a', 3, b'9', b'9', b'9', 0][..]);
}
