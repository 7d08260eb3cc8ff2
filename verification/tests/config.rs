use turbine::{PoolConfig, TurbineError};

#[test]
fn default_config_is_valid() {
    PoolConfig::default().validate().unwrap();
}

#[test]
fn initial_arenas_zero_rejected() {
    let cfg = PoolConfig {
        initial_arenas: 0,
        ..Default::default()
    };
    let err = cfg.validate().unwrap_err();
    let msg = err.to_string();
    assert!(msg.contains("initial_arenas"), "error should mention initial_arenas: {msg}");
}

#[test]
fn initial_arenas_one_accepted() {
    let cfg = PoolConfig {
        initial_arenas: 1,
        registration_slots: 1,
        ..Default::default()
    };
    cfg.validate().unwrap();
}

#[test]
fn unaligned_arena_size_rejected() {
    let cfg = PoolConfig {
        arena_size: 4097,
        ..Default::default()
    };
    assert!(cfg.validate().is_err());
}

#[test]
fn non_power_of_two_page_size_rejected() {
    let cfg = PoolConfig {
        page_size: 3000,
        ..Default::default()
    };
    assert!(cfg.validate().is_err());
}

#[test]
fn arena_size_zero_rejected() {
    let cfg = PoolConfig {
        arena_size: 0,
        ..Default::default()
    };
    let err = cfg.validate().unwrap_err();
    let msg = err.to_string();
    assert!(msg.contains("arena_size"), "error should mention arena_size: {msg}");
}

#[test]
fn page_size_zero_rejected() {
    let cfg = PoolConfig {
        page_size: 0,
        ..Default::default()
    };
    let err = cfg.validate().unwrap_err();
    let msg = err.to_string();
    assert!(msg.contains("page_size"), "error should mention page_size: {msg}");
}

#[test]
fn page_size_not_power_of_two_rejected() {
    let cfg = PoolConfig {
        arena_size: 6000,
        page_size: 6000,
        ..Default::default()
    };
    let err = cfg.validate().unwrap_err();
    let msg = err.to_string();
    assert!(msg.contains("power of two"), "error should mention power of two: {msg}");
}

#[test]
fn registration_slots_less_than_initial_arenas_rejected() {
    let cfg = PoolConfig {
        initial_arenas: 4,
        registration_slots: 2,
        ..Default::default()
    };
    let err = cfg.validate().unwrap_err();
    let msg = err.to_string();
    assert!(msg.contains("registration_slots"), "error should mention registration_slots: {msg}");
}

#[test]
fn default_config_values() {
    let cfg = PoolConfig::default();
    assert_eq!(cfg.arena_size, 2 * 1024 * 1024);
    assert_eq!(cfg.initial_arenas, 4);
    assert_eq!(cfg.max_free_arenas, 4);
    assert_eq!(cfg.max_total_arenas, 0);
    assert_eq!(cfg.registration_slots, 32);
    assert_eq!(cfg.page_size, 4096);
}

#[test]
fn first_broken_rule_is_named() {
    let cfg = PoolConfig {
        initial_arenas: 0,
        page_size: 3,
        arena_size: 0,
        registration_slots: 0,
        ..Default::default()
    };
    let err = cfg.validate().unwrap_err();
    assert!(matches!(&err, TurbineError::InvalidConfig(rule) if rule == "initial_arenas must be >= 1"));
}

#[test]
fn slots_fit_one_word() {
    let cfg = PoolConfig { registration_slots: 64, ..Default::default() };
    cfg.validate().unwrap();
    let cfg = PoolConfig { registration_slots: 65, ..Default::default() };
    let err = cfg.validate().unwrap_err();
    assert!(matches!(
        &err,
        TurbineError::InvalidConfig(rule) if rule == "registration_slots (65) must be <= 64"
    ));
    let cfg = PoolConfig { initial_arenas: 70, registration_slots: 66, ..Default::default() };
    let err = cfg.validate().unwrap_err();
    assert!(matches!(
        &err,
        TurbineError::InvalidConfig(rule)
            if rule == "registration_slots (66) must be >= initial_arenas (70)"
    ));
}

#[test]
fn largest_page_sizes() {
    let top = 1usize << (usize::BITS - 1);
    let cfg = PoolConfig {
        arena_size: top,
        page_size: top,
        ..Default::default()
    };
    cfg.validate().unwrap();
    let cfg = PoolConfig {
        arena_size: 8192,
        page_size: usize::MAX,
        ..Default::default()
    };
    assert!(cfg.validate().is_err());
    let cfg = PoolConfig {
        arena_size: 7,
        page_size: 1,
        ..Default::default()
    };
    cfg.validate().unwrap();
}
