use mining_bot::id::EntityId;
use mining_bot::miner::MineRequest;
use mining_bot::pow::{pow_search, pow_valid};
use uuid::Uuid;

fn random_id() -> EntityId {
    EntityId::new(Uuid::new_v4().as_u128())
}

#[test]
fn test_pow_search_finds_valid_nonce() {
    let mine_request = MineRequest {
        seed: "test_seed".to_owned(),
        tick: 42,
        resource_id: random_id(),
        agent_id: random_id(),
        target_bits: 4,
    };

    let nonce = pow_search(&mine_request, 0, 100_000)
        .expect("devrait trouver un nonce avec 4 bits en < 100k essais");
    assert!(pow_valid(&mine_request, nonce));
}

#[test]
fn test_pow_valid_rejects_bad_nonce() {
    let mine_request = MineRequest {
        seed: "test_seed".to_owned(),
        tick: 42,
        resource_id: random_id(),
        agent_id: random_id(),
        target_bits: 32,
    };
    assert!(!pow_valid(&mine_request, 0));
}

use mining_bot::pow::leading_zero_bits;

fn request(target_bits: u8) -> MineRequest {
    MineRequest {
        seed: "graine".to_owned(),
        tick: 7,
        resource_id: EntityId::new(0x0102_0304_0506_0708_090a_0b0c_0d0e_0f10),
        agent_id: EntityId::new(0xa1a2_a3a4_b1b2_c1c2_d1d2_d3d4_d5d6_d7d8),
        target_bits,
    }
}

fn reference_hash(req: &MineRequest, nonce: u64) -> [u8; 32] {
    let mut hasher = blake3::Hasher::new();
    hasher.update(req.seed.as_bytes());
    hasher.update(&req.tick.to_le_bytes());
    hasher.update(Uuid::from_u128(req.resource_id.value).as_bytes());
    hasher.update(Uuid::from_u128(req.agent_id.value).as_bytes());
    hasher.update(&nonce.to_le_bytes());
    *hasher.finalize().as_bytes()
}

fn reference_zero_bits(bytes: &[u8]) -> u32 {
    let mut count = 0;
    for b in bytes {
        count += b.leading_zeros();
        if b.leading_zeros() < 8 {
            break;
        }
    }
    count
}

#[test]
fn leading_zero_bits_exact_values() {
    assert_eq!(leading_zero_bits(&[]), 0);
    assert_eq!(leading_zero_bits(&[0x80]), 0);
    assert_eq!(leading_zero_bits(&[0x01]), 7);
    assert_eq!(leading_zero_bits(&[0x00, 0x0f]), 12);
    assert_eq!(leading_zero_bits(&[0x00, 0x00, 0x01, 0x00]), 23);
    assert_eq!(leading_zero_bits(&[0x00, 0x00]), 16);
}

#[test]
fn entity_id_bytes_are_big_endian() {
    let id = EntityId::new(0xa1a2_a3a4_b1b2_c1c2_d1d2_d3d4_d5d6_d7d8);
    assert_eq!(
        id.as_bytes(),
        [
            0xa1, 0xa2, 0xa3, 0xa4, 0xb1, 0xb2, 0xc1, 0xc2, 0xd1, 0xd2, 0xd3, 0xd4, 0xd5, 0xd6,
            0xd7, 0xd8
        ]
    );
    let uuid = Uuid::new_v4();
    assert_eq!(&EntityId::new(uuid.as_u128()).as_bytes(), uuid.as_bytes());
}

#[test]
fn pow_valid_matches_the_blake3_hash() {
    for target in [0u8, 1, 2, 3, 5, 8, 12] {
        let req = request(target);
        for nonce in 0..200u64 {
            let expected = reference_zero_bits(&reference_hash(&req, nonce)) >= target as u32;
            assert_eq!(pow_valid(&req, nonce), expected, "target {target} nonce {nonce}");
        }
    }
}

#[test]
fn pow_valid_with_zero_target_accepts_every_nonce() {
    let req = request(0);
    for nonce in [0u64, 1, 99, u64::MAX] {
        assert!(pow_valid(&req, nonce));
    }
}

#[test]
fn pow_search_returns_the_first_valid_nonce() {
    let req = request(6);
    let nonce = pow_search(&req, 10, 100_000).expect("a nonce with 6 zero bits");
    assert!(nonce >= 10);
    assert!(pow_valid(&req, nonce));
    for n in 10..nonce {
        assert!(!pow_valid(&req, n));
    }
}

#[test]
fn pow_search_with_empty_batch_finds_nothing() {
    let req = request(0);
    assert_eq!(pow_search(&req, 5, 0), None);
}

#[test]
fn pow_search_stops_before_u64_max() {
    let req = request(0);
    // the range saturates at u64::MAX, which itself is never tried
    assert_eq!(pow_search(&req, u64::MAX, 10), None);
    assert_eq!(pow_search(&req, u64::MAX - 1, 10), Some(u64::MAX - 1));
}

#[test]
fn pow_search_in_two_batches_equals_one_search() {
    let req = request(8);
    let whole = pow_search(&req, 0, 5_000);
    let first = pow_search(&req, 0, 10);
    if first.is_none() {
        assert_eq!(pow_search(&req, 10, 4_990), whole);
    } else {
        assert_eq!(first, whole);
    }
    assert_eq!(pow_search(&req, 0, 5_000), whole);
}

#[test]
fn lower_target_keeps_nonce_valid() {
    let hard = request(10);
    let nonce = pow_search(&hard, 0, 1_000_000).expect("a nonce with 10 zero bits");
    for target in 0..=10u8 {
        assert!(pow_valid(&request(target), nonce));
    }
}
