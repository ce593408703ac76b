use chained_collections::hashmap::options::{LoadFactor, Options};
use chained_collections::hashmap::HashMap;

#[test]
fn passing_validation() {
    let options = Options {
        initial_capacity: Some(16),
        load_factor: Some(LoadFactor { numerator: 3, denominator: 4 }),
        dynamic_resizing: Some(true),
    };

    assert!(options.validate().is_ok());
}

#[test]
fn load_factor_invalid() {
    let options = Options {
        initial_capacity: Some(16),
        load_factor: Some(LoadFactor { numerator: 0, denominator: 2 }),
        dynamic_resizing: Some(true),
    };

    assert!(options.validate().is_err());
}

#[test]
fn test_error_messages() {
    let options = Options {
        initial_capacity: None,
        load_factor: Some(LoadFactor { numerator: 0, denominator: 2 }),
        dynamic_resizing: None,
    };
    let errors = options.validate().unwrap_err();
    assert_eq!(errors, vec!["Load factor cannot be zero or less"]);
}

#[test]
fn test_error_messages_accumulate() {
    let options = Options {
        initial_capacity: Some(0),
        load_factor: Some(LoadFactor { numerator: 0, denominator: 0 }),
        dynamic_resizing: Some(true),
    };
    let errors = options.validate().unwrap_err();
    assert_eq!(
        errors,
        vec![
            "Load factor cannot be zero or less",
            "Load factor denominator cannot be zero",
            "Initial capacity cannot be zero",
        ]
    );
}

#[test]
fn test_defaults_resolve() {
    let options = Options::default();
    let config = options.validate().unwrap();
    assert_eq!(config.initial_capacity(), 16);
    let ratio = config.load_factor();
    assert_eq!(ratio.numerator, 3);
    assert_eq!(ratio.denominator, 4);
    assert!(config.dynamic_resizing());

    let map: HashMap<u64, u64> = HashMap::with_configuration(config);
    assert_eq!(map.capacity(), 16);
    assert_eq!(map.size(), 0);
}

#[test]
fn test_validated_getters() {
    let options = Options {
        initial_capacity: Some(32),
        load_factor: Some(LoadFactor { numerator: 1, denominator: 2 }),
        dynamic_resizing: Some(false),
    };
    let config = options.validate().unwrap();
    assert_eq!(config.initial_capacity(), 32);
    assert_eq!(config.load_factor(), LoadFactor { numerator: 1, denominator: 2 });
    assert!(!config.dynamic_resizing());
}
