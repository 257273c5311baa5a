//! What is known of a vehicle.
use obd_session_rs::cache::{CacheEntry, CacheError, CacheManager, VehicleCache};

fn entry(raw_response: &str, cached_at: u64) -> CacheEntry {
    CacheEntry {
        raw_response: raw_response.to_string(),
        available: true,
        cached_at,
    }
}

#[test]
fn test_get_cached_pids() {
    let mut cache = VehicleCache::new("VIN123".to_string(), 0);
    cache.entries.insert("0100".to_string(), entry("41 00 FF FF FF FF", 1000));
    let (cached, uncached) =
        CacheManager::get_cached_pids(Some(&cache), &["0100".to_string(), "0120".to_string()]);
    assert_eq!(cached, vec!["0100"]);
    assert_eq!(uncached, vec!["0120"]);
}

#[test]
fn test_update_cache_merges() {
    let first = CacheManager::update_cache(
        None,
        "VIN1",
        vec![("0100".to_string(), entry("resp1", 1000))],
        vec!["010C".to_string()],
        5,
    );
    let merged = CacheManager::update_cache(
        Some(first),
        "VIN1",
        vec![("0120".to_string(), entry("resp2", 2000))],
        vec!["010D".to_string()],
        6,
    );
    assert_eq!(merged.entries.keys().len(), 2);
    assert_eq!(merged.available_pids, vec!["010C", "010D"]);
    assert_eq!((merged.vin.as_str(), merged.version, merged.updated_at), ("VIN1", 1, 6));
}

#[test]
fn an_update_overwrites_and_joins() {
    let first = CacheManager::update_cache(
        None,
        "V",
        vec![("0100".to_string(), entry("a", 1)), ("0120".to_string(), entry("b", 1))],
        vec!["010C".to_string(), "010D".to_string()],
        1,
    );
    let merged = CacheManager::update_cache(
        Some(first),
        "V",
        vec![("0100".to_string(), entry("c", 2))],
        vec!["010C".to_string(), "0105".to_string()],
        2,
    );
    assert_eq!(merged.entries.get("0100").unwrap().raw_response, "c");
    assert_eq!(merged.entries.get("0120").unwrap().raw_response, "b");
    assert_eq!(merged.available_pids, vec!["0105", "010C", "010D"]);
}

#[test]
fn nothing_is_known_without_a_cache() {
    let (cached, uncached) = CacheManager::get_cached_pids(None, &["0100".to_string()]);
    assert!(cached.is_empty());
    assert_eq!(uncached, vec!["0100"]);
}

#[test]
fn file_names_keep_letters_and_digits() {
    assert_eq!(CacheManager::cache_file_name("WVW-1/2"), "WVW_1_2.cache");
    assert_eq!(CacheManager::cache_file_name("Äß9"), "Äß9.cache");
}

#[test]
fn cache_errors_have_messages() {
    assert_eq!(CacheError::IoError("x".into()).message(), "Cache I/O error: x");
    assert_eq!(CacheError::ParseError("x".into()).message(), "Cache parse error: x");
}

#[test]
fn vehicles_have_files_of_their_own() {
    let name = CacheManager::cache_file_name;
    assert_eq!(name("1FA6P8CF0H5"), "1FA6P8CF0H5.cache");
    assert_ne!(name("1FA6P8CF0H5"), name("1FA6P8CF0H6"));
    assert_eq!(name("../x y"), "___x_y.cache");
}

#[test]
fn no_available_pid_stands_twice() {
    let twice = vec!["010D".to_string(), "010C".to_string(), "010D".to_string()];
    let first = CacheManager::update_cache(None, "V", Vec::new(), twice.clone(), 1);
    assert_eq!(first.available_pids, vec!["010C", "010D"]);
    let again = CacheManager::update_cache(Some(first), "V", Vec::new(), twice, 2);
    assert_eq!(again.available_pids, vec!["010C", "010D"]);
}
