use entity_store::number::GenOverflowError;
use entity_store::number::NumberGenExt;

#[test]
fn generation_counts_upward() {
    let mut counter: u64 = 0;
    assert_eq!(counter.try_generate(), Ok(1));
    assert_eq!(counter.try_generate(), Ok(2));
    assert_eq!(counter.try_generate(), Ok(3));
    assert_eq!(counter, 3);
}

#[test]
fn generation_fails_at_the_limit_instead_of_wrapping() {
    let mut counter: u64 = u64::MAX - 1;
    assert_eq!(counter.try_generate(), Ok(u64::MAX));
    assert_eq!(counter.try_generate(), Err(GenOverflowError::new()));
    assert_eq!(counter, u64::MAX);
    assert_eq!(<u64 as NumberGenExt>::limit(), u64::MAX);
}

#[test]
fn overflow_error_describes_itself() {
    assert_eq!(
        GenOverflowError::new().message(),
        "generator overflowed: identifier space exhausted"
    );
}
