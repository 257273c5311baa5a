//! Which pids are wanted, and what was last read of them. Times are microseconds.
use obd_session_rs::pid_registry::GlobalPIDRegistry;
use uuid::Uuid;

#[test]
fn test_pid_registration() {
    let mut registry = GlobalPIDRegistry::new(5000);

    let sub1 = Uuid::new_v4().as_u128();
    let sub2 = Uuid::new_v4().as_u128();

    registry.register_pid_subscription("010C", sub1, Some("7E0".to_string()));
    registry.register_pid_subscription("010D", sub1, None);
    registry.register_pid_subscription("010C", sub2, Some("7E0".to_string()));

    assert_eq!(registry.get_pid_subscription_count("010C"), 2);
    assert_eq!(registry.get_pid_subscription_count("010D"), 1);
    assert_eq!(registry.unique_pid_count(), 2);
    assert_eq!(registry.total_subscription_count(), 3);

    assert_eq!(
        registry.get_pid_controller("010C"),
        Some(&"7E0".to_string())
    );
    assert_eq!(registry.get_pid_controller("010D"), None);
}

#[test]
fn test_pid_unregistration() {
    let mut registry = GlobalPIDRegistry::new(5000);

    let sub1 = Uuid::new_v4().as_u128();
    let sub2 = Uuid::new_v4().as_u128();

    registry.register_pid_subscription("010C", sub1, None);
    registry.register_pid_subscription("010D", sub1, None);
    registry.register_pid_subscription("010C", sub2, None);

    registry.unregister_pid_subscription("010C", &sub1);
    assert_eq!(registry.get_pid_subscription_count("010C"), 1);

    registry.unregister_subscription(&sub1);
    assert_eq!(registry.get_pid_subscription_count("010C"), 1);
    assert_eq!(registry.get_pid_subscription_count("010D"), 0);
    assert!(!registry.is_pid_subscribed("010D"));
}

#[test]
fn test_unique_pids() {
    let mut registry = GlobalPIDRegistry::new(5000);

    let sub1 = Uuid::new_v4().as_u128();

    registry.register_pid_subscription("010C", sub1, Some("7E0".to_string()));
    registry.register_pid_subscription("010D", sub1, Some("7E0".to_string()));
    registry.register_pid_subscription("0105", sub1, None);

    let unique_pids = registry.get_unique_pids();
    assert_eq!(unique_pids.len(), 3);

    let controller_7e0: Vec<_> = unique_pids
        .iter()
        .filter(|(_, controller)| controller.as_ref() == Some(&"7E0".to_string()))
        .collect();
    assert_eq!(controller_7e0.len(), 2);
}

#[test]
fn test_pid_caching() {
    let mut registry = GlobalPIDRegistry::new(1000);

    registry.cache_pid_response("010C", "41 0C 1A F8".to_string(), None, 0);

    let cached = registry.get_cached_pid_response("010C", 0);
    assert!(cached.is_some());
    assert_eq!(cached.unwrap().data, "41 0C 1A F8");

    assert!(registry.get_cached_pid_response("010C", 500_000).is_some());

    assert!(registry.get_cached_pid_response("010C", 1_100_000).is_none());
}

#[test]
fn test_cache_cleanup() {
    let mut registry = GlobalPIDRegistry::new(100);

    registry.cache_pid_response("010C", "data".to_string(), None, 0);
    assert!(registry.get_cached_pid_response("010C", 0).is_some());

    assert!(registry.pid_cache.has("010C"));

    registry.clear_expired_cache(150_000);
    assert!(!registry.pid_cache.has("010C"));
}

#[test]
fn a_pid_is_wanted_by_each_subscription_once() {
    let mut registry = GlobalPIDRegistry::new(5000);
    registry.register_pid_subscription("010C", 1, None);
    registry.register_pid_subscription("010C", 1, None);
    registry.register_pid_subscription("010D", 2, None);
    assert_eq!(registry.get_pid_subscription_count("010C"), 1);
    assert_eq!(registry.get_pid_subscriptions("010C"), Some(&vec![1]));
    let mut all = registry.get_all_pids();
    all.sort();
    assert_eq!(all, vec!["010C", "010D"]);
    registry.unregister_subscription(&1);
    assert!(!registry.is_pid_subscribed("010C"));
    assert_eq!(registry.get_pid_subscription_count("010D"), 1);
    assert_eq!(registry.get_all_pids(), vec!["010D"]);
}

#[test]
fn a_reply_counts_until_its_time_is_over() {
    let mut registry = GlobalPIDRegistry::new(5000);
    registry.set_default_ttl(10);
    registry.cache_pid_response("010C", "a".to_string(), None, 1_000);
    registry.cache_pid_response("010D", "b".to_string(), Some(20), 1_000);
    assert!(registry.get_cached_pid_response("010C", 10_999).is_some());
    assert!(registry.get_cached_pid_response("010C", 11_000).is_none());
    assert_eq!(registry.get_cached_pid_response("010D", 11_000).unwrap().data, "b");
    registry.clear_expired_cache(11_000);
    assert!(!registry.pid_cache.has("010C") && registry.pid_cache.has("010D"));
    registry.clear_cache();
    assert!(!registry.pid_cache.has("010D"));
}

#[test]
fn pids_are_sorted_by_controller() {
    let mut registry = GlobalPIDRegistry::new(5000);
    registry.register_pid_subscription("0104", 1, Some("7E8".to_string()));
    registry.register_pid_subscription("0105", 1, Some("7E0".to_string()));
    registry.register_pid_subscription("010C", 1, None);
    registry.register_pid_subscription("010D", 1, Some("7E8".to_string()));
    registry.register_pid_subscription("0103", 1, Some("7E0".to_string()));
    registry.register_pid_subscription("0102", 1, None);
    let got: Vec<(String, Option<String>)> = registry.get_unique_pids();
    let got: Vec<(&str, Option<&str>)> =
        got.iter().map(|(p, c)| (p.as_str(), c.as_deref())).collect();
    assert_eq!(
        got,
        vec![
            ("0102", None),
            ("010C", None),
            ("0103", Some("7E0")),
            ("0105", Some("7E0")),
            ("0104", Some("7E8")),
            ("010D", Some("7E8")),
        ]
    );
}
