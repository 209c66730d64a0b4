use serde_bucket::BucketError;
use serde_bucket::BucketMapDeserializer;
use serde_bucket::BucketSeqDeserializer;
use serde_bucket::PseudoError;

#[test]
fn sequence_of_k_yields_k_elements_then_the_end() {
    for k in [0usize, 1, 2, 5] {
        let mut elements = BucketSeqDeserializer::new(k);
        for _ in 0..k {
            assert!(elements.next_element());
        }
        assert!(!elements.next_element());
        assert!(!elements.next_element());
    }
}

#[test]
fn map_of_n_yields_n_keys_then_the_end() {
    let mut entries = BucketMapDeserializer::new(2);
    assert_eq!(entries.next_key(), Ok(true));
    assert_eq!(entries.next_value(), Ok(()));
    assert_eq!(entries.next_key(), Ok(true));
    assert_eq!(entries.next_value(), Ok(()));
    assert_eq!(entries.next_key(), Ok(false));
    assert_eq!(entries.next_key(), Ok(false));
}

#[test]
fn two_values_without_a_key_between_is_an_order_violation() {
    let mut entries = BucketMapDeserializer::new(3);
    assert_eq!(entries.next_key(), Ok(true));
    assert_eq!(entries.next_value(), Ok(()));
    assert_eq!(entries.next_value(), Err(BucketError::MapOrderViolation));
    assert_eq!(entries.next_key(), Ok(true));
    assert_eq!(entries.next_value(), Ok(()));
}

#[test]
fn value_before_any_key_is_an_order_violation() {
    let mut entries = BucketMapDeserializer::new(1);
    assert_eq!(entries.next_value(), Err(BucketError::MapOrderViolation));
    let mut empty = BucketMapDeserializer::new(0);
    assert_eq!(empty.next_key(), Ok(false));
    assert_eq!(empty.next_value(), Err(BucketError::MapOrderViolation));
}

#[test]
fn two_keys_without_a_value_between_is_an_order_violation() {
    let mut entries = BucketMapDeserializer::new(2);
    assert_eq!(entries.next_key(), Ok(true));
    assert_eq!(entries.next_key(), Err(BucketError::MapOrderViolation));
    assert_eq!(entries.next_value(), Ok(()));
    assert_eq!(entries.next_key(), Ok(true));
}

#[test]
fn error_messages_name_the_failure() {
    assert_eq!(
        BucketError::ConsumedTwice.message(),
        "value as already been consumed"
    );
    assert_eq!(
        BucketError::CorruptBuffer.message(),
        "invalid value - no size data"
    );
    assert_eq!(
        BucketError::MapOrderViolation.message(),
        "out-of-order access - keys and values alternate"
    );
}

#[test]
fn pseudo_error_is_its_message() {
    assert_eq!(PseudoError::custom("boom").to_string(), "boom");
    assert_eq!(PseudoError::custom(42).to_string(), "42");
    assert_eq!(
        PseudoError::from_cause(BucketError::ConsumedTwice).to_string(),
        "value as already been consumed"
    );
    assert!(PseudoError::custom("a") == PseudoError::custom(String::from("a")));
}
