//! Tests that a persisted function can be restored and computes the same
//! values: build from random keys, save to a byte stream, load it back,
//! and check every position.
use std::collections::HashSet;

use rand::distr::Alphanumeric;
use rand::rngs::StdRng;
use rand::{Rng, SeedableRng};

use pthash::{
    BuildConfiguration, DictionaryDictionary, EliasFano, Encoder, Hasher, Minimal, Minimality,
    MurmurHash2_64, Nonminimal, PartitionedCompact, PartitionedPhf, SinglePhf,
};

fn random_keys(num_keys: u64) -> Vec<Vec<u8>> {
    let mut rng = StdRng::seed_from_u64(42);
    let mut keys = Vec::new();
    let mut key_set = HashSet::new();
    for _ in 0..num_keys {
        let len: u8 = rng.random();
        let key: Vec<u8> = (0..len).map(|_| rng.sample(&Alphanumeric)).collect();
        if !key_set.contains(&key) {
            // Cannot have duplicates in the set of keys.
            // We push to a vec in order for the test to be deterministic
            key_set.insert(key.clone());
            keys.push(key);
        }
    }
    keys
}

fn config_for<M: Minimality>(num_partitions: u64) -> BuildConfiguration {
    let mut config = BuildConfiguration::new();
    config.c_milli = 3000;
    config.alpha_milli = 500;
    config.minimal_output = M::minimal();
    config.num_partitions = num_partitions;
    config.verbose_output = false;
    config
}

fn test_single<M: Minimality, H: Hasher, E: Encoder>(num_keys: u64) {
    let keys = random_keys(num_keys);
    let num_keys = keys.len() as u64;
    let config = config_for::<M>(1);

    let mut built = SinglePhf::<M, H, E>::new();
    built.build_in_internal_memory_from_bytes(&keys, &config).expect("Failed to build");
    let bytes = built.save();
    let f = SinglePhf::<M, H, E>::load(&bytes).expect("Failed to load PHF");

    if M::minimal() {
        // Hashes are unique and in the [0; num_keys) segment
        let mut hashes: Vec<u64> = keys.iter().map(|key| f.hash(key)).collect();
        hashes.sort();
        assert_eq!(hashes, Vec::from_iter(0..num_keys));

        // Hashing an object that wasn't provided when building the function collides
        assert!(f.hash(&b"not_a_key".to_vec()) < num_keys);
    } else {
        // Hashes are unique
        let mut hashes: Vec<u64> = keys.iter().map(|key| f.hash(key)).collect();
        hashes.sort();
        hashes.dedup();
        assert_eq!(hashes.len() as u64, num_keys);

        // But not in the [0; num_keys) segment (not minimal)
        let mut sorted: Vec<u64> = keys.iter().map(|key| f.hash(key)).collect();
        sorted.sort();
        assert_ne!(sorted, Vec::from_iter(0..num_keys));

        // Hashing an object that wasn't provided when building the function may collide
        // or exceed the maximum
        assert!(f.hash(&b"not_a_key".to_vec()) < *sorted.last().unwrap() * 1000);
    }
}

fn test_partitioned<M: Minimality, H: Hasher, E: Encoder>(num_keys: u64, num_partitions: u64) {
    let keys = random_keys(num_keys);
    let num_keys = keys.len() as u64;
    let config = config_for::<M>(num_partitions);

    let mut built = PartitionedPhf::<M, H, E>::new();
    built.build_in_internal_memory_from_bytes(&keys, &config).expect("Failed to build");
    let bytes = built.save();
    let f = PartitionedPhf::<M, H, E>::load(&bytes).expect("Failed to load PHF");

    if M::minimal() {
        let mut hashes: Vec<u64> = keys.iter().map(|key| f.hash(key)).collect();
        hashes.sort();
        assert_eq!(hashes, Vec::from_iter(0..num_keys));
        assert!(f.hash(&b"not_a_key".to_vec()) < num_keys);
    } else {
        let mut hashes: Vec<u64> = keys.iter().map(|key| f.hash(key)).collect();
        hashes.sort();
        let mut deduped = hashes.clone();
        deduped.dedup();
        assert_eq!(deduped.len() as u64, num_keys);
        assert_ne!(hashes, Vec::from_iter(0..num_keys));
        assert!(f.hash(&b"not_a_key".to_vec()) < *hashes.last().unwrap() * 1000);
    }
}

#[test]
fn load_test_single_minimal_hash64_dictionary_dictionary() {
    test_single::<Minimal, MurmurHash2_64, DictionaryDictionary>(100)
}

#[test]
fn test_single_minimal_hash64_dictionary_dictionary_many_keys() {
    test_single::<Minimal, MurmurHash2_64, DictionaryDictionary>(200000)
}

#[test]
fn load_test_single_nonminimal_hash64_dictionary_dictionary() {
    test_single::<Nonminimal, MurmurHash2_64, DictionaryDictionary>(100)
}

#[test]
fn load_test_single_minimal_hash64_partitioned_compact() {
    test_single::<Minimal, MurmurHash2_64, PartitionedCompact>(100)
}

#[test]
fn load_test_single_minimal_hash64_elias_fano() {
    test_single::<Minimal, MurmurHash2_64, EliasFano>(100)
}

#[test]
fn test_2partitions_minimal_hash64_dictionary_dictionary() {
    test_partitioned::<Minimal, MurmurHash2_64, DictionaryDictionary>(200000, 2)
}

#[test]
fn test_2partitions_nonminimal_hash64_dictionary_dictionary() {
    test_partitioned::<Nonminimal, MurmurHash2_64, DictionaryDictionary>(200000, 2)
}
