//! Builds a function with every combination of minimality, hasher, and
//! encoder, then hashes a few keys.
use pthash::{
    BuildConfiguration, DictionaryDictionary, EliasFano, Encoder, Hasher, Minimal, Minimality,
    MurmurHash2_64, MurmurHash2_128, Nonminimal, PartitionedCompact, SinglePhf,
};

fn test_single<M: Minimality, H: Hasher, E: Encoder>() {
    let mut config = BuildConfiguration::new();
    config.minimal_output = M::minimal();
    config.verbose_output = false;

    let keys: Vec<Vec<u8>> = vec![b"abc".to_vec(), b"def".to_vec(), b"ghikl".to_vec()];

    let mut f = SinglePhf::<M, H, E>::new();
    f.build_in_internal_memory_from_bytes(&keys, &config).expect("Failed to build");

    let mut hashes: Vec<u64> = keys.iter().map(|key| f.hash(key)).collect();
    hashes.sort();
    if M::minimal() {
        // Hashes are unique and fill [0, 3)
        assert_eq!(hashes, vec![0, 1, 2]);
        // Hashing an object that wasn't provided when building the function collides
        assert!(f.hash(&b"not_a_key".to_vec()) < 3);
    } else {
        // Hashes are unique and in range
        assert!(hashes[0] != hashes[1] && hashes[1] != hashes[2]);
        let range = f.table_size();
        assert!(hashes.iter().all(|&h| h < range));
        assert!(f.hash(&b"not_a_key".to_vec()) < range);
    }
}

#[test]
fn single_phf_test_single_minimal_hash64_dictionary_dictionary() {
    test_single::<Minimal, MurmurHash2_64, DictionaryDictionary>()
}

#[test]
fn single_phf_test_single_minimal_hash64_partitioned_compact() {
    test_single::<Minimal, MurmurHash2_64, PartitionedCompact>()
}

#[test]
fn single_phf_test_single_minimal_hash64_elias_fano() {
    test_single::<Minimal, MurmurHash2_64, EliasFano>()
}

#[test]
fn test_single_minimal_hash128_dictionary_dictionary() {
    test_single::<Minimal, MurmurHash2_128, DictionaryDictionary>()
}

#[test]
fn test_single_minimal_hash128_partitioned_compact() {
    test_single::<Minimal, MurmurHash2_128, PartitionedCompact>()
}

#[test]
fn test_single_minimal_hash128_elias_fano() {
    test_single::<Minimal, MurmurHash2_128, EliasFano>()
}

#[test]
fn single_phf_test_single_nonminimal_hash64_dictionary_dictionary() {
    test_single::<Nonminimal, MurmurHash2_64, DictionaryDictionary>()
}

#[test]
fn test_single_nonminimal_hash64_partitioned_compact() {
    test_single::<Nonminimal, MurmurHash2_64, PartitionedCompact>()
}

#[test]
fn test_single_nonminimal_hash64_elias_fano() {
    test_single::<Nonminimal, MurmurHash2_64, EliasFano>()
}

#[test]
fn test_single_nonminimal_hash128_dictionary_dictionary() {
    test_single::<Nonminimal, MurmurHash2_128, DictionaryDictionary>()
}

#[test]
fn test_single_nonminimal_hash128_partitioned_compact() {
    test_single::<Nonminimal, MurmurHash2_128, PartitionedCompact>()
}

#[test]
fn test_single_nonminimal_hash128_elias_fano() {
    test_single::<Nonminimal, MurmurHash2_128, EliasFano>()
}
