use nomai_core::error::CoreError;
use nomai_core::float_bits::{decode_vector, encode_vector};
use nomai_core::memory_model::MemoryPolicy;

fn bits(values: &[f64]) -> Vec<u64> {
    values.iter().map(|v| v.to_bits()).collect()
}

fn assert_policy_rejects(policy: MemoryPolicy, field: &str) {
    assert!(
        matches!(policy.validate(), Err(CoreError::Validation(message)) if message.contains(field)),
        "policy should reject unsafe {field}"
    );
}

fn policy_with_cap(max_reinforcements: u8) -> MemoryPolicy {
    let mut policy = MemoryPolicy { max_reinforcements, ..MemoryPolicy::default() };
    match max_reinforcements {
        1 => {
            policy.entry_reinforcement_factors = bits(&[1.0, 1.1]);
            policy.affinity_reinforcement_factors = bits(&[0.0, 0.7]);
        }
        2 => {
            policy.entry_reinforcement_factors = bits(&[1.0, 1.1, 1.17]);
            policy.affinity_reinforcement_factors = bits(&[0.0, 0.7, 0.9]);
        }
        _ => {}
    }
    policy
}

#[test]
fn memory_policy_accepts_supported_non_default_caps() {
    assert!(policy_with_cap(1).validate().is_ok());
    assert!(policy_with_cap(2).validate().is_ok());
}

#[test]
fn memory_policy_rejects_caps_outside_database_range() {
    for max_reinforcements in [0, 4] {
        assert!(matches!(
            policy_with_cap(max_reinforcements).validate(),
            Err(CoreError::Validation(message))
                if message.contains("max_reinforcements")
        ));
    }
}

#[test]
fn memory_policy_rejects_factor_arrays_of_the_wrong_length() {
    let mut policy = policy_with_cap(2);
    policy.affinity_reinforcement_factors.pop();
    assert!(matches!(
        policy.validate(),
        Err(CoreError::Validation(message)) if message.contains("3 values")
    ));
}

#[test]
fn memory_policy_rejects_non_monotonic_factor_arrays() {
    let mut entry = policy_with_cap(2);
    entry.entry_reinforcement_factors = bits(&[1.0, 1.2, 1.1]);
    assert!(matches!(
        entry.validate(),
        Err(CoreError::Validation(message)) if message.contains("non-decreasing")
    ));

    let mut affinity = policy_with_cap(2);
    affinity.affinity_reinforcement_factors = bits(&[0.0, 0.9, 0.8]);
    assert!(matches!(
        affinity.validate(),
        Err(CoreError::Validation(message)) if message.contains("non-decreasing")
    ));
}

#[test]
fn memory_policy_rejects_non_finite_or_unsafe_scalar_ranges() {
    for half_life_days in [0.0, -1.0, f64::INFINITY, f64::NEG_INFINITY, f64::NAN] {
        assert_policy_rejects(
            MemoryPolicy { half_life_days: half_life_days.to_bits(), ..MemoryPolicy::default() },
            "half_life_days",
        );
    }
    for decay_floor in [0.0, -0.1, 1.1, f64::INFINITY, f64::NEG_INFINITY, f64::NAN] {
        assert_policy_rejects(
            MemoryPolicy { decay_floor: decay_floor.to_bits(), ..MemoryPolicy::default() },
            "decay_floor",
        );
    }
    for session_ttl_hours in [0, -1] {
        assert_policy_rejects(
            MemoryPolicy { session_ttl_hours, ..MemoryPolicy::default() },
            "session_ttl_hours",
        );
    }
    for threshold in [-0.1, 1.0, f64::INFINITY, f64::NEG_INFINITY, f64::NAN] {
        assert_policy_rejects(
            MemoryPolicy {
                affinity_similarity_threshold: threshold.to_bits(),
                ..MemoryPolicy::default()
            },
            "affinity_similarity_threshold",
        );
    }
    for affinity_weight in [-0.1, f64::INFINITY, f64::NEG_INFINITY, f64::NAN] {
        assert_policy_rejects(
            MemoryPolicy { affinity_weight: affinity_weight.to_bits(), ..MemoryPolicy::default() },
            "affinity_weight",
        );
    }
    assert_policy_rejects(
        MemoryPolicy { affinity_candidate_limit: 0, ..MemoryPolicy::default() },
        "affinity_candidate_limit",
    );
    for entry_recency_weight in [-0.1, 1.1, f64::INFINITY, f64::NEG_INFINITY, f64::NAN] {
        assert_policy_rejects(
            MemoryPolicy {
                entry_recency_weight: entry_recency_weight.to_bits(),
                ..MemoryPolicy::default()
            },
            "entry_recency_weight",
        );
    }
}

#[test]
fn memory_policy_rejects_non_finite_negative_or_decreasing_factors() {
    for (index, invalid) in [
        (0, -0.1),
        (3, f64::INFINITY),
        (0, f64::NEG_INFINITY),
        (0, f64::NAN),
    ] {
        let mut entry = MemoryPolicy::default();
        entry.entry_reinforcement_factors[index] = invalid.to_bits();
        assert_policy_rejects(entry, "reinforcement factors");

        let mut affinity = MemoryPolicy::default();
        affinity.affinity_reinforcement_factors[index] = invalid.to_bits();
        assert_policy_rejects(affinity, "reinforcement factors");
    }
}

#[test]
fn reinforcement_factors_are_bounded() {
    let policy = MemoryPolicy::default();
    assert_eq!(f64::from_bits(policy.entry_reinforcement_factor(0)), 1.00);
    assert_eq!(f64::from_bits(policy.entry_reinforcement_factor(3)), 1.22);
    assert_eq!(f64::from_bits(policy.entry_reinforcement_factor(99)), 1.22);
    assert_eq!(f64::from_bits(policy.affinity_reinforcement_factor(1)), 0.70);
    assert_eq!(f64::from_bits(policy.affinity_reinforcement_factor(99)), 1.00);
}

#[test]
fn the_default_policy_is_valid_and_has_the_documented_values() {
    let policy = MemoryPolicy::default();
    assert!(policy.validate().is_ok());
    assert!(policy.enabled);
    assert_eq!(f64::from_bits(policy.half_life_days), 30.0);
    assert_eq!(f64::from_bits(policy.decay_floor), 0.10);
    assert_eq!(f64::from_bits(policy.affinity_similarity_threshold), 0.82);
    assert_eq!(f64::from_bits(policy.affinity_weight), 1.0);
    assert_eq!(f64::from_bits(policy.entry_recency_weight), 0.30);
    assert_eq!(policy.entry_reinforcement_factors, bits(&[1.00, 1.10, 1.17, 1.22]));
    assert_eq!(policy.affinity_reinforcement_factors, bits(&[0.00, 0.70, 0.90, 1.00]));
    assert_eq!(policy.session_ttl_hours, 24);
    assert_eq!(policy.affinity_candidate_limit, 2);
}

#[test]
fn vec0_embedding_reads_as_little_endian_f32_blob() {
    let expected = vec![1.0f32, 0.25, -0.5, 0.0];
    let raw: Vec<u32> = expected.iter().map(|v| v.to_bits()).collect();
    let blob = encode_vector(&raw);
    let little_endian: Vec<u8> = expected.iter().flat_map(|v| v.to_le_bytes()).collect();
    assert_eq!(blob, little_endian);
    assert_eq!(decode_vector(&blob), Some(raw));
    assert_eq!(decode_vector(&vec![0, 0, 0]), None);
}
