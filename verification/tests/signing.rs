use aion::signing::{calculate_normalized_timewarp_hash, sign_tw_hash, validate_tw_signature};
use iota_conversion::Trinary;
use iota_signing::{address, digests, key};

const TEST_SEED: &str =
    "IHDEENZYITYVYSPKAURUZAQKGVJEREFDJMYTANNXXGPZ9GJWTEOJJ9IPMXOGZNQLSNMFDSQOTZAEETUEA";

const TEST_TRUNK: &str =
    "BBBEENZYITYVYSPKAURUZAQKGVJEREFDJMYTANAAAGPZ9GJWTEOJJ9IPMXOGZNQLSNMFDSQOTZAEETUEA";

#[test]
fn print_ln_test() {
    println!("Step 1");
    let _y = TEST_SEED.trits();
    let key_a = key(&TEST_SEED.trits(), 0, 1).unwrap();
    let key_b = key(&TEST_SEED.trits(), 1, 1).unwrap();
    let digests_a = digests(&key_a).unwrap();
    let address_a_trits = address(&digests_a).unwrap();
    let address_a = address_a_trits.trytes().unwrap();

    let digests_b = digests(&key_b).unwrap();
    let address_b_trits = address(&digests_b).unwrap();

    let address_b = address_b_trits.trytes().unwrap();
    println!("Step 2");
    let tw_bundle =
        calculate_normalized_timewarp_hash(&*address_b, TEST_TRUNK, TEST_TRUNK, "99999", "999999999");
    println!("Step 3");
    let signed = sign_tw_hash(&key_a, &tw_bundle.0);
    println!("Step 4");

    let validated = validate_tw_signature(&address_a, &tw_bundle.0, &signed);
    println!("Success!! {}, {}", validated, signed);
    println!("Address to sign: {}", address_b);
    println!("tw bundle: {:?}", tw_bundle);
    println!("{:?}", TEST_SEED.trits().trytes());
}

use aion::signing::{
    calculate_normalized_timewarp_hash_within, generate_key_and_address, increase_index, timewarp_hash,
    trytes_to_number,
};
use iota_crypto::{Kerl, Sponge};

#[test]
fn increase_index_adds_one_and_keeps_length() {
    assert_eq!(increase_index("9999"), "A999");
    assert_eq!(increase_index("A"), "B");
    assert_eq!(increase_index("M9"), "NA");
    assert_eq!(increase_index("Z"), "9");
    assert_eq!(increase_index("M"), "N");
}

#[test]
fn trytes_to_number_reads_balanced_ternary() {
    assert_eq!(trytes_to_number("AJA"), 1000);
    assert_eq!(trytes_to_number("9"), 0);
    assert_eq!(trytes_to_number("N"), -13);
    assert_eq!(trytes_to_number(""), 0);
}

#[test]
fn key_and_address_match_the_signing_crate() {
    let (k, a) = generate_key_and_address(TEST_SEED, 2);
    let key_direct = key(&TEST_SEED.trits(), 2, 1).unwrap();
    assert_eq!(k, key_direct);
    let addr = address(&digests(&key_direct).unwrap()).unwrap().trytes().unwrap();
    assert_eq!(a, addr);
    assert_eq!(a.len(), 81);
}

#[test]
fn timewarp_hash_is_kerl_of_fields() {
    let tag = "9999999999999999999999999TW";
    let h = timewarp_hash(TEST_SEED, TEST_TRUNK, TEST_TRUNK, tag);
    let mut input = String::new();
    input.push_str(TEST_SEED);
    input.push_str(TEST_TRUNK);
    input.push_str(TEST_TRUNK);
    input.push_str(tag);
    input.push_str(&"9".repeat(54));
    let mut kerl = Kerl::default();
    let mut out = [0i8; 243];
    kerl.absorb(&input.trits()).unwrap();
    kerl.squeeze(&mut out).unwrap();
    assert_eq!(h, out.trytes().unwrap());
    assert_eq!(h.len(), 81);
}

#[test]
fn signed_timewarp_hash_validates_for_the_signing_address_only() {
    let (key_a, address_a) = generate_key_and_address(TEST_SEED, 0);
    let (_key_b, address_b) = generate_key_and_address(TEST_SEED, 1);
    let (hash, tag) =
        calculate_normalized_timewarp_hash_within(&address_b, TEST_TRUNK, TEST_TRUNK, "99999", "999999999", 1000)
            .unwrap();
    assert_eq!(hash, timewarp_hash(&address_b, TEST_TRUNK, TEST_TRUNK, &tag));
    assert_eq!(tag.len(), 27);
    let signature = sign_tw_hash(&key_a, &hash);
    assert_eq!(signature.len(), 2187);
    assert!(validate_tw_signature(&address_a, &hash, &signature));
    assert!(!validate_tw_signature(&address_b, &hash, &signature));
}

#[test]
fn normalized_hash_search_gives_up_after_the_limit() {
    let r = calculate_normalized_timewarp_hash_within(TEST_SEED, TEST_TRUNK, TEST_TRUNK, "99999", "999999999", 0);
    assert!(r.is_none());
}
