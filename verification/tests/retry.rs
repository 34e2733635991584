use mvcc::retry::{Attempts, Step, MAX_ATTEMPTS};
use mvcc::{Error, Result};

fn conflict() -> Result<u8> {
    Err(Error::WriteConflict { table: "items" })
}

#[test]
fn success_is_handed_back() {
    let mut attempts = Attempts::new();
    assert!(matches!(attempts.after(Ok(7)), Step::Finish(Ok(7))));
    assert_eq!(attempts.made, 1);
}

#[test]
fn mistakes_are_not_retried() {
    for e in [
        Error::Aborted,
        Error::DuplicateKey { table: "t", index: "i" },
        Error::TableNotRegistered { table: "t" },
        Error::PrimaryKeyChanged { table: "t" },
    ] {
        let mut attempts = Attempts::new();
        let outcome: Result<u8> = Err(e);
        assert!(matches!(attempts.after(outcome), Step::Finish(Err(_))));
    }
}

#[test]
fn conflicts_are_retried_with_a_growing_wait() {
    let mut attempts = Attempts::new();
    let mut waits = Vec::new();
    for _ in 0..12 {
        match attempts.after(conflict()) {
            Step::RetryAfter { micros } => waits.push(micros),
            Step::Finish(_) => panic!("gave up early"),
        }
    }
    assert_eq!(
        waits,
        vec![2, 4, 8, 16, 32, 64, 128, 256, 512, 1024, 1024, 1024]
    );
}

#[test]
fn serialization_failures_are_retried() {
    let mut attempts = Attempts::new();
    let outcome: Result<u8> = Err(Error::SerializationFailure);
    assert!(matches!(attempts.after(outcome), Step::RetryAfter { micros: 2 }));
}

#[test]
fn the_hundredth_attempt_is_the_last() {
    let mut attempts = Attempts::new();
    for _ in 1..MAX_ATTEMPTS {
        assert!(matches!(attempts.after(conflict()), Step::RetryAfter { .. }));
    }
    assert!(matches!(
        attempts.after(conflict()),
        Step::Finish(Err(Error::WriteConflict { table: "items" }))
    ));
    assert_eq!(attempts.made, 100);
}
