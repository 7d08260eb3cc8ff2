use turbine::{ArenaIdx, OsError, TurbineError};

fn os(text: &str) -> OsError {
    OsError { code: 12, text: text.to_string() }
}

#[test]
fn messages_of_the_pool_errors() {
    let full = TurbineError::ArenaFull { requested: 100, available: 7 };
    assert_eq!(full.to_string(), "arena full: requested 100 bytes, 7 available");
    assert_eq!(
        TurbineError::EpochNotFound(9).to_string(),
        "epoch 9 not found in clock ring"
    );
    assert_eq!(
        TurbineError::EpochNotCollectable(3, 2).to_string(),
        "epoch 3 still has 2 outstanding leases"
    );
    assert_eq!(
        TurbineError::LeakedLeases(5).to_string(),
        "arena still has outstanding leases on drop (5 remaining)"
    );
    assert_eq!(
        TurbineError::InvalidConfig("page_size".to_string()).to_string(),
        "pool configuration invalid: page_size"
    );
}

#[test]
fn messages_of_the_limits() {
    let limit = TurbineError::ArenaLimitExceeded { current: 2, max: 2 };
    assert_eq!(limit.to_string(), "arena limit exceeded: 2 live, at most 2 allowed");
    let slot = TurbineError::NoRegistrationSlot(ArenaIdx::new(4));
    assert_eq!(slot.to_string(), "no registration slot left for arena 4");
}

#[test]
fn messages_of_the_system_errors() {
    assert_eq!(TurbineError::Mmap(os("no memory")).to_string(), "mmap failed: no memory");
    assert_eq!(TurbineError::Munmap(os("bad range")).to_string(), "munmap failed: bad range");
    assert_eq!(TurbineError::Madvise(os("bad hint")).to_string(), "madvise failed: bad hint");
    assert_eq!(
        TurbineError::Registration(os("busy")).to_string(),
        "io_uring buffer registration failed: busy"
    );
}
