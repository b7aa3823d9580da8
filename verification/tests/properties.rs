//! Property scenarios: concrete cases of injectivity, minimal
//! bijectivity, the persistence round trip, determinism under a fixed
//! seed, encoder equivalence, configuration rejection, and the invariant
//! checker.
use std::collections::HashSet;

use rand::distr::Alphanumeric;
use rand::rngs::StdRng;
use rand::{Rng, SeedableRng};

use pthash::{
    check, BuildConfiguration, BuildError, DictionaryDictionary, EliasFano, LoadError, Minimal,
    MurmurHash2_64, MurmurHash2_128, Nonminimal, PartitionedCompact, PartitionedPhf, SinglePhf,
    ViolatedInvariant,
};

fn three_keys() -> Vec<Vec<u8>> {
    vec![b"abc".to_vec(), b"def".to_vec(), b"ghikl".to_vec()]
}

fn random_keys(num_keys: u64) -> Vec<Vec<u8>> {
    let mut rng = StdRng::seed_from_u64(42);
    let mut keys = Vec::new();
    let mut key_set = HashSet::new();
    for _ in 0..num_keys {
        let len: u8 = rng.random();
        let key: Vec<u8> = (0..len).map(|_| rng.sample(&Alphanumeric)).collect();
        if !key_set.contains(&key) {
            key_set.insert(key.clone());
            keys.push(key);
        }
    }
    keys
}

/// Keys `{abc, def, ghikl}`, load factor 0.94, minimal, one partition,
/// fixed seed: the values are a permutation of `{0, 1, 2}`, and an absent
/// key maps below 3.
#[test]
fn scenario_three_keys_minimal_alpha_094() {
    let keys = three_keys();
    let mut config = BuildConfiguration::new();
    config.alpha_milli = 940;
    config.minimal_output = true;
    config.seed = 1234567;
    config.verbose_output = false;
    let mut f = SinglePhf::<Minimal, MurmurHash2_64, DictionaryDictionary>::new();
    f.build_in_internal_memory_from_bytes(&keys, &config).expect("Failed to build");
    let mut hashes: Vec<u64> = keys.iter().map(|key| f.hash(key)).collect();
    hashes.sort();
    assert_eq!(hashes, vec![0, 1, 2]);
    assert!(f.hash(&b"not_a_key".to_vec()) < 3);
}

/// 200,000 random keys, two partitions, non-minimal: all positions are
/// distinct and at least one lies at or above the key count.
#[test]
fn scenario_two_partitions_nonminimal() {
    let keys = random_keys(200000);
    let n = keys.len() as u64;
    let mut config = BuildConfiguration::new();
    config.c_milli = 3000;
    config.alpha_milli = 500;
    config.num_partitions = 2;
    config.verbose_output = false;
    let mut f = PartitionedPhf::<Nonminimal, MurmurHash2_64, DictionaryDictionary>::new();
    f.build_in_internal_memory_from_bytes(&keys, &config).expect("Failed to build");
    let mut hashes: Vec<u64> = keys.iter().map(|key| f.hash(key)).collect();
    hashes.sort();
    let mut deduped = hashes.clone();
    deduped.dedup();
    assert_eq!(deduped.len() as u64, n);
    assert!(*hashes.last().unwrap() >= n);
}

/// Building twice with the same explicit seed and key order persists to
/// bit-identical bytes.
#[test]
fn determinism_given_seed() {
    let keys = random_keys(500);
    let mut config = BuildConfiguration::new();
    config.minimal_output = true;
    config.seed = 987654321;
    config.verbose_output = false;
    let mut f1 = SinglePhf::<Minimal, MurmurHash2_64, DictionaryDictionary>::new();
    f1.build_in_internal_memory_from_bytes(&keys, &config).expect("Failed to build");
    let mut f2 = SinglePhf::<Minimal, MurmurHash2_64, DictionaryDictionary>::new();
    f2.build_in_internal_memory_from_bytes(&keys, &config).expect("Failed to build");
    assert_eq!(f1.save(), f2.save());
}

/// For a fixed key set, seed, and minimality, the three encoders give
/// functions that agree on every key's position.
#[test]
fn encoder_equivalence() {
    let keys = random_keys(300);
    let mut config = BuildConfiguration::new();
    config.minimal_output = true;
    config.seed = 42424242;
    config.verbose_output = false;
    let mut dd = SinglePhf::<Minimal, MurmurHash2_64, DictionaryDictionary>::new();
    dd.build_in_internal_memory_from_bytes(&keys, &config).expect("Failed to build");
    let mut pc = SinglePhf::<Minimal, MurmurHash2_64, PartitionedCompact>::new();
    pc.build_in_internal_memory_from_bytes(&keys, &config).expect("Failed to build");
    let mut ef = SinglePhf::<Minimal, MurmurHash2_64, EliasFano>::new();
    ef.build_in_internal_memory_from_bytes(&keys, &config).expect("Failed to build");
    for key in &keys {
        let h = dd.hash(key);
        assert_eq!(h, pc.hash(key));
        assert_eq!(h, ef.hash(key));
    }
    assert!(dd.num_bits() > 0 && pc.num_bits() > 0 && ef.num_bits() > 0);
}

/// The persistence round trip restores the key count, table size, seed,
/// and every position.
#[test]
fn round_trip_small() {
    let keys = three_keys();
    let mut config = BuildConfiguration::new();
    config.minimal_output = true;
    config.seed = 7;
    config.verbose_output = false;
    let mut f = SinglePhf::<Minimal, MurmurHash2_64, EliasFano>::new();
    f.build_in_internal_memory_from_bytes(&keys, &config).expect("Failed to build");
    let bytes = f.save();
    let g = SinglePhf::<Minimal, MurmurHash2_64, EliasFano>::load(&bytes).expect("Failed to load");
    assert_eq!(g.num_keys(), f.num_keys());
    assert_eq!(g.table_size(), f.table_size());
    assert_eq!(g.seed(), f.seed());
    for key in &keys {
        assert_eq!(g.hash(key), f.hash(key));
    }
}

/// An invalid configuration is rejected before any work.
#[test]
fn invalid_configuration_is_rejected() {
    let keys = three_keys();
    let mut f = SinglePhf::<Minimal, MurmurHash2_64, DictionaryDictionary>::new();

    let mut bad_alpha = BuildConfiguration::new();
    bad_alpha.minimal_output = true;
    bad_alpha.alpha_milli = 0;
    assert_eq!(
        f.build_in_internal_memory_from_bytes(&keys, &bad_alpha),
        Err(BuildError::InvalidConfiguration)
    );

    let mut bad_parts = BuildConfiguration::new();
    bad_parts.minimal_output = true;
    bad_parts.num_partitions = 0;
    assert_eq!(
        f.build_in_internal_memory_from_bytes(&keys, &bad_parts),
        Err(BuildError::InvalidConfiguration)
    );

    let mut mismatched = BuildConfiguration::new();
    mismatched.minimal_output = false;
    assert_eq!(
        f.build_in_internal_memory_from_bytes(&keys, &mismatched),
        Err(BuildError::InvalidConfiguration)
    );

    let empty: Vec<Vec<u8>> = Vec::new();
    let mut ok = BuildConfiguration::new();
    ok.minimal_output = true;
    assert_eq!(
        f.build_in_internal_memory_from_bytes(&empty, &ok),
        Err(BuildError::InvalidConfiguration)
    );
}

/// A corrupt or mistagged stream is rejected on load.
#[test]
fn corrupt_streams_are_rejected() {
    let garbage: Vec<u8> = vec![7; 40];
    let loaded = SinglePhf::<Minimal, MurmurHash2_64, DictionaryDictionary>::load(&garbage);
    assert!(matches!(loaded, Err(LoadError::SerializationError)));

    let keys = three_keys();
    let mut config = BuildConfiguration::new();
    config.minimal_output = true;
    config.seed = 7;
    let mut f = SinglePhf::<Minimal, MurmurHash2_64, DictionaryDictionary>::new();
    f.build_in_internal_memory_from_bytes(&keys, &config).expect("Failed to build");
    let bytes = f.save();
    // the encoder variant tag does not match
    let mistagged = SinglePhf::<Minimal, MurmurHash2_64, EliasFano>::load(&bytes);
    assert!(matches!(mistagged, Err(LoadError::SerializationError)));
    // a truncated stream is rejected
    let truncated: Vec<u8> = bytes[..bytes.len() - 8].to_vec();
    assert!(SinglePhf::<Minimal, MurmurHash2_64, DictionaryDictionary>::load(&truncated).is_err());
}

/// The checker accepts a sound function and reports duplicate keys.
#[test]
fn checker_accepts_and_rejects() {
    let keys = three_keys();
    let mut config = BuildConfiguration::new();
    config.minimal_output = true;
    config.seed = 99;
    let mut f = SinglePhf::<Minimal, MurmurHash2_64, DictionaryDictionary>::new();
    f.build_in_internal_memory_from_bytes(&keys, &config).expect("Failed to build");
    assert_eq!(check(&keys, &f), Ok(()));

    // a duplicated key must collide with itself
    let mut twice = keys.clone();
    twice.push(keys[0].clone());
    let expected = f.hash(&keys[0]);
    assert_eq!(
        check(&twice, &f),
        Err(ViolatedInvariant::Duplicates { duplicate_hash: expected })
    );
}

/// 64-bit integers are hashable keys with a fixed byte form.
#[test]
fn integer_keys_build() {
    let keys: Vec<u64> = (0..50u64).map(|x| x * 1234567 + 89).collect();
    let byte_keys: Vec<Vec<u8>> = keys.iter().map(|k| k.to_le_bytes().to_vec()).collect();
    let mut config = BuildConfiguration::new();
    config.minimal_output = true;
    config.seed = 5;
    let mut f = SinglePhf::<Minimal, MurmurHash2_64, DictionaryDictionary>::new();
    f.build_in_internal_memory_from_bytes(&byte_keys, &config).expect("Failed to build");
    // hashing the integer directly agrees with hashing its byte form
    for (k, bk) in keys.iter().zip(byte_keys.iter()) {
        assert_eq!(f.hash(k), f.hash(bk));
    }
    let mut hashes: Vec<u64> = keys.iter().map(|k| f.hash(k)).collect();
    hashes.sort();
    assert_eq!(hashes, Vec::from_iter(0..50u64));
}

/// The partitioned builder rejects a partition count that leaves a
/// partition empty.
#[test]
fn too_many_partitions_rejected() {
    let keys = three_keys();
    let mut config = BuildConfiguration::new();
    config.minimal_output = true;
    config.num_partitions = 1000;
    config.seed = 3;
    let mut f = PartitionedPhf::<Minimal, MurmurHash2_64, DictionaryDictionary>::new();
    assert_eq!(
        f.build_in_internal_memory_from_bytes(&keys, &config),
        Err(BuildError::InvalidConfiguration)
    );
}

/// The 128-bit hasher builds and queries like the 64-bit one.
#[test]
fn partitioned_round_trip_hash128() {
    let keys = random_keys(2000);
    let n = keys.len() as u64;
    let mut config = BuildConfiguration::new();
    config.minimal_output = true;
    config.num_partitions = 2;
    config.seed = 11;
    config.verbose_output = false;
    let mut f = PartitionedPhf::<Minimal, MurmurHash2_128, EliasFano>::new();
    f.build_in_internal_memory_from_bytes(&keys, &config).expect("Failed to build");
    let bytes = f.save();
    let g = PartitionedPhf::<Minimal, MurmurHash2_128, EliasFano>::load(&bytes)
        .expect("Failed to load");
    let mut hashes: Vec<u64> = keys.iter().map(|key| g.hash(key)).collect();
    hashes.sort();
    assert_eq!(hashes, Vec::from_iter(0..n));
}
