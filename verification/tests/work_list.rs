use phash_pipeline::cache::Cache;
use phash_pipeline::checkpoint::read_result;
use phash_pipeline::record::encode_entry;
use phash_pipeline::work::{read_input_list, work_set};

fn strings(items: &[&str]) -> Vec<String> {
    items.iter().map(|s| s.to_string()).collect()
}

#[test]
fn cache_starts_empty_and_keeps_the_last_insert() {
    let mut cache = Cache::new();
    assert_eq!(cache.len(), 0);
    assert!(!cache.contains_key("a"));
    assert_eq!(cache.get("a"), None);
    cache.insert("a".to_string(), 1);
    cache.insert("b".to_string(), 2);
    cache.insert("a".to_string(), 3);
    assert_eq!(cache.len(), 2);
    assert_eq!(cache.get("a"), Some(3));
    assert_eq!(cache.get("b"), Some(2));
    assert!(cache.contains_key("b"));
    assert!(!cache.contains_key("c"));
}

#[test]
fn read_input_list_trims_each_line() {
    let lines = strings(&["a.jpg", "  b.jpg\r", "\tc d.jpg  ", "", "   "]);
    assert_eq!(read_input_list(&lines), strings(&["a.jpg", "b.jpg", "c d.jpg", "", ""]));
    assert_eq!(read_input_list(&Vec::new()), Vec::<String>::new());
}

#[test]
fn work_set_is_candidates_without_cached_paths() {
    let mut cache = Cache::new();
    cache.insert("b.jpg".to_string(), 2);
    cache.insert("z.jpg".to_string(), 26);
    let work = work_set(&strings(&["a.jpg", "b.jpg", "c.jpg"]), &cache);
    assert_eq!(work, strings(&["a.jpg", "c.jpg"]));
}

#[test]
fn work_set_collapses_repeated_candidates() {
    let cache = Cache::new();
    let work = work_set(&strings(&["a", "b", "a", "c", "b", "a"]), &cache);
    assert_eq!(work, strings(&["a", "b", "c"]));
}

#[test]
fn work_set_of_nothing_or_of_cached_paths_is_empty() {
    let mut cache = Cache::new();
    assert_eq!(work_set(&Vec::new(), &cache), Vec::<String>::new());
    cache.insert("a".to_string(), 1);
    assert_eq!(work_set(&strings(&["a", "a"]), &cache), Vec::<String>::new());
}

/// One run over an in-memory file: every path of the work set for which `hash_of`
/// gives a hash is appended, in the order `order` picks. Returns the paths hashed.
fn run(file: &mut Vec<u8>, candidates: &[String], hash_of: fn(&str) -> Option<u64>, reverse: bool) -> Vec<String> {
    let read = read_result(file);
    let mut work = work_set(&candidates.to_vec(), &read.cache);
    if reverse {
        work.reverse();
    }
    let mut at = read.valid_len;
    let mut hashed = Vec::new();
    for path in work {
        if let Some(hash) = hash_of(&path) {
            hashed.push(path.clone());
            if let Some(line) = encode_entry(&path, hash) {
                let mut next = file[..at].to_vec();
                next.extend_from_slice(&line);
                if at + line.len() < file.len() {
                    next.extend_from_slice(&file[at + line.len()..]);
                }
                *file = next;
                at += line.len();
            }
        }
    }
    hashed
}

fn toy_hash(path: &str) -> Option<u64> {
    if path.starts_with("broken") {
        None
    } else {
        Some(path.len() as u64 * 1000 + 7)
    }
}

#[test]
fn second_run_hashes_nothing_and_leaves_the_file() {
    let candidates = read_input_list(&strings(&["a.jpg", " b.jpg", "broken.jpg", "a.jpg", "old.jpg"]));
    for reverse in [false, true] {
        let mut file = b"old.jpg\t5\nhalf wri".to_vec();
        let first = run(&mut file, &candidates, toy_hash, reverse);
        assert_eq!(first.len(), 2);
        let after_first = file.clone();
        let second = run(&mut file, &candidates, toy_hash, reverse);
        assert_eq!(second, Vec::<String>::new());
        assert_eq!(file, after_first);
        let r = read_result(&file);
        assert_eq!(r.cache.len(), 3);
        assert_eq!(r.cache.get("old.jpg"), Some(5));
        assert_eq!(r.cache.get("a.jpg"), Some(5007));
        assert_eq!(r.cache.get("b.jpg"), Some(5007));
        assert_eq!(r.cache.get("broken.jpg"), None);
    }
}

#[test]
fn path_with_a_tab_is_never_written() {
    let candidates = strings(&["a\tb.jpg", "c.jpg"]);
    let mut file = Vec::new();
    let hashed = run(&mut file, &candidates, toy_hash, false);
    assert_eq!(hashed.len(), 2);
    assert_eq!(file, b"c.jpg\t5007\n".to_vec());
    let r = read_result(&file);
    assert_eq!(r.cache.len(), 1);
    assert!(!r.cache.contains_key("a\tb.jpg"));
}
