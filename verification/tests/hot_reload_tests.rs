use archetype_ecs::hot_reload::HotReloadManager;
use std::time::Duration;

#[test]
fn registering_keeps_order_and_replaces_same_name() {
    let mut m = HotReloadManager::new(0);
    assert_eq!(m.system_count(), 0);
    assert_eq!(m.register_system("movement".to_string()), 0);
    assert_eq!(m.register_system("physics".to_string()), 1);
    assert_eq!(m.system_names(), vec!["movement".to_string(), "physics".to_string()]);
    assert_eq!(m.record_reloads(&[true, true]), 2);
    assert_eq!(m.reload_count(0), Some(1));
    assert_eq!(m.register_system("movement".to_string()), 0);
    assert_eq!(m.system_count(), 2);
    assert_eq!(m.reload_count(0), Some(0));
    assert_eq!(m.reload_count(1), Some(1));
    assert_eq!(m.reload_count(2), None);
}

#[test]
fn record_reloads_counts_successes_only() {
    let mut m = HotReloadManager::new(0);
    m.register_system("a".to_string());
    m.register_system("b".to_string());
    m.register_system("c".to_string());
    assert_eq!(m.record_reloads(&[true, false, true]), 2);
    assert_eq!(m.record_reloads(&[false, false, true]), 1);
    assert_eq!(m.reload_count(0), Some(1));
    assert_eq!(m.reload_count(1), Some(0));
    assert_eq!(m.reload_count(2), Some(2));
}

#[test]
fn disabled_manager_records_nothing() {
    let mut m = HotReloadManager::new(0);
    m.register_system("a".to_string());
    m.set_enabled(false);
    assert!(!m.enabled());
    assert_eq!(m.record_reloads(&[true]), 0);
    assert_eq!(m.reload_count(0), Some(0));
}

#[test]
fn check_waits_for_the_interval() {
    let mut m = HotReloadManager::new(5_000_000_000);
    assert_eq!(m.check_interval(), Duration::from_secs(1));
    assert_eq!(m.check_and_reload(5_500_000_000).unwrap(), 0);
    assert_eq!(m.last_check(), 5_000_000_000);
    assert_eq!(m.check_and_reload(6_000_000_000).unwrap(), 0);
    assert_eq!(m.last_check(), 6_000_000_000);
    assert_eq!(m.check_and_reload(1).unwrap(), 0);
    assert_eq!(m.last_check(), 6_000_000_000);
    m.set_check_interval(Duration::from_millis(0));
    assert_eq!(m.check_and_reload(1).unwrap(), 0);
    assert_eq!(m.last_check(), 1);
    m.set_enabled(false);
    assert_eq!(m.check_and_reload(10_000_000_000).unwrap(), 0);
    assert_eq!(m.last_check(), 1);
}
