use argon2_rs::derive::memory_if_reserved;
use argon2_rs::{
    Algorithm, Argon2, Error, ErrorKind, InputLengths, SaltPolicy, Version,
    RECOMMENDED_HASH_LENGTH,
};

fn hex(s: &str) -> Vec<u8> {
    let b = s.as_bytes();
    let mut out = Vec::new();
    let mut i = 0;
    while i + 1 < b.len() {
        let hi = (b[i] as char).to_digit(16).unwrap() as u8;
        let lo = (b[i + 1] as char).to_digit(16).unwrap() as u8;
        out.push(hi * 16 + lo);
        i += 2;
    }
    out
}

fn small() -> Argon2 {
    Argon2::new(32, 2, 2).with_hash_length(32)
}

fn lengths(password: usize, salt: usize, secret: usize, associated_data: usize) -> InputLengths {
    InputLengths { password, salt, secret, associated_data }
}

fn fields(a: &Argon2) -> (u32, u32, u32, u64, Algorithm, Version) {
    (a.m_cost, a.t_cost, a.p_cost, a.hash_length, a.algorithm, a.version)
}

#[test]
fn test_argon2() {
    let argon2 = Argon2::very_fast();
    let salt = vec![1, 2, 3, 4, 5, 6, 7, 8, 9, 10, 11, 12, 13, 14, 15, 16];
    let hash = argon2.hash_password("password", salt).unwrap();
    assert_eq!(hash.len(), 64);
}

#[test]
fn example_vector() {
    let params = Argon2::new(65536, 2, 1)
        .with_algorithm(Algorithm::Argon2id)
        .with_version(Version::V0x13)
        .with_hash_length(32);
    let salt: Vec<u8> = (1u8..=16).collect();
    assert_eq!(
        params.hash_password("password", salt).unwrap(),
        hex("a26f560e8738ef780a3ae38707957592c1eecd9dd2ba801db361fb64a5c054b3")
    );
}

#[test]
fn new_takes_the_costs_and_the_defaults() {
    let a = Argon2::new(512_000, 8, 1);
    assert_eq!(fields(&a), (512_000, 8, 1, 64, Algorithm::Argon2id, Version::V0x13));
    assert_eq!(RECOMMENDED_HASH_LENGTH, 64);
}

#[test]
fn builders_replace_one_field() {
    let a = Argon2::new(100, 3, 2);
    let b = a.clone().with_algorithm(Algorithm::Argon2d);
    assert_eq!(fields(&b), (100, 3, 2, 64, Algorithm::Argon2d, Version::V0x13));
    let c = a.clone().with_version(Version::V0x10);
    assert_eq!(fields(&c), (100, 3, 2, 64, Algorithm::Argon2id, Version::V0x10));
    let d = a.clone().with_hash_length(17);
    assert_eq!(fields(&d), (100, 3, 2, 17, Algorithm::Argon2id, Version::V0x13));
    let e = a.with_algorithm(Algorithm::Argon2i).with_version(Version::V0x10).with_hash_length(4);
    assert_eq!(fields(&e), (100, 3, 2, 4, Algorithm::Argon2i, Version::V0x10));
}

#[test]
fn presets() {
    let d = (Algorithm::Argon2id, Version::V0x13);
    assert_eq!(fields(&Argon2::very_fast()), (128_000, 8, 1, 64, d.0, d.1));
    assert_eq!(fields(&Argon2::fast()), (256_000, 16, 1, 64, d.0, d.1));
    assert_eq!(fields(&Argon2::balanced()), (1_024_000, 8, 1, 64, d.0, d.1));
    assert_eq!(fields(&Argon2::slow()), (2_048_000, 8, 1, 64, d.0, d.1));
    assert_eq!(fields(&Argon2::very_slow()), (3_072_000, 8, 1, 64, d.0, d.1));
}

#[test]
fn defaults() {
    assert_eq!(Algorithm::default(), Algorithm::Argon2id);
    assert_eq!(Version::default(), Version::V0x13);
    assert_eq!(fields(&Argon2::default()), (0, 0, 0, 0, Algorithm::Argon2id, Version::V0x13));
}

#[test]
fn codes_and_order_of_variants_and_versions() {
    assert_eq!(Algorithm::Argon2d.code(), 0);
    assert_eq!(Algorithm::Argon2i.code(), 1);
    assert_eq!(Algorithm::Argon2id.code(), 2);
    assert_eq!(Version::V0x10.code(), 16);
    assert_eq!(Version::V0x13.code(), 19);
    assert!(Algorithm::Argon2d < Algorithm::Argon2i);
    assert!(Algorithm::Argon2i < Algorithm::Argon2id);
    assert!(Version::V0x10 < Version::V0x13);
}

#[test]
fn determinism() {
    for algorithm in [Algorithm::Argon2d, Algorithm::Argon2i, Algorithm::Argon2id] {
        let params = small().with_algorithm(algorithm);
        let first = params.derive(b"password", b"somesalt", Some(b"key"), Some(b"data")).unwrap();
        let second = params.derive(b"password", b"somesalt", Some(b"key"), Some(b"data")).unwrap();
        assert_eq!(first, second);
    }
    let failing = small().with_hash_length(3);
    assert_eq!(
        failing.derive(b"password", b"somesalt", None, None),
        failing.derive(b"password", b"somesalt", None, None)
    );
}

#[test]
fn an_absent_input_counts_as_an_empty_one() {
    let params = small();
    let absent = params.derive(b"password", b"somesalt", None, None).unwrap();
    let empty = params.derive(b"password", b"somesalt", Some(b""), Some(b"")).unwrap();
    assert_eq!(absent, empty);
    assert_eq!(absent, params.hash_password("password", b"somesalt".to_vec()).unwrap());
}

#[test]
fn sensitivity_to_every_bit_of_the_inputs() {
    let params = small();
    let password = b"password".to_vec();
    let salt = b"somesalt".to_vec();
    let secret = b"key".to_vec();
    let data = b"data".to_vec();
    let base = params.derive(&password, &salt, Some(&secret), Some(&data)).unwrap();
    for which in 0..4 {
        let n = [password.len(), salt.len(), secret.len(), data.len()][which];
        for bit in 0..8 * n {
            let mut inputs = [password.clone(), salt.clone(), secret.clone(), data.clone()];
            inputs[which][bit / 8] ^= 1 << (bit % 8);
            let other = params
                .derive(&inputs[0], &inputs[1], Some(&inputs[2]), Some(&inputs[3]))
                .unwrap();
            assert_ne!(base, other, "input {} bit {}", which, bit);
        }
    }
}

#[test]
fn sensitivity_to_every_parameter() {
    let params = small();
    let run = |p: &Argon2| p.derive(b"password", b"somesalt", None, None).unwrap();
    let base = run(&params);
    assert_ne!(base, run(&Argon2 { m_cost: 33, ..params.clone() }));
    assert_ne!(base, run(&Argon2 { m_cost: 40, ..params.clone() }));
    assert_ne!(base, run(&Argon2 { t_cost: 3, ..params.clone() }));
    assert_ne!(base, run(&Argon2 { p_cost: 1, ..params.clone() }));
    assert_ne!(base, run(&Argon2 { p_cost: 3, ..params.clone() }));
    assert_ne!(base, run(&params.clone().with_algorithm(Algorithm::Argon2d)));
    assert_ne!(base, run(&params.clone().with_algorithm(Algorithm::Argon2i)));
    assert_ne!(base, run(&params.clone().with_version(Version::V0x10)));
    let longer = run(&params.clone().with_hash_length(33));
    assert_ne!(base[..], longer[..32]);
}

#[test]
fn the_two_versions_differ_only_from_the_second_pass_on() {
    // The version enters the initial hash, so the tags always differ; with
    // a single pass both versions overwrite, with two the later one XORs.
    for t_cost in [1u32, 2] {
        let a = Argon2::new(32, t_cost, 1).with_hash_length(32).with_version(Version::V0x10);
        let b = Argon2::new(32, t_cost, 1).with_hash_length(32).with_version(Version::V0x13);
        assert_ne!(
            a.derive(b"password", b"somesalt", None, None).unwrap(),
            b.derive(b"password", b"somesalt", None, None).unwrap()
        );
    }
}

#[test]
fn length_contract() {
    for length in [4u64, 32, 64, 128, 1024] {
        for algorithm in [Algorithm::Argon2d, Algorithm::Argon2i, Algorithm::Argon2id] {
            let params = small().with_algorithm(algorithm).with_hash_length(length);
            let tag = params.derive(b"password", b"somesalt", None, None).unwrap();
            assert_eq!(tag.len() as u64, length);
        }
    }
}

#[test]
fn memory_below_eight_blocks_per_lane_is_rejected() {
    for p_cost in [1u32, 2, 4, 100] {
        let low = Argon2::new(8 * p_cost - 1, 1, p_cost).with_hash_length(32);
        assert_eq!(low.derive(b"password", b"somesalt", None, None), Err(Error::MemoryTooLittle));
    }
    for p_cost in [1u32, 2, 4] {
        let enough = Argon2::new(8 * p_cost, 1, p_cost).with_hash_length(32);
        assert_eq!(enough.derive(b"password", b"somesalt", None, None).unwrap().len(), 32);
    }
    assert_eq!(
        Argon2::new(0, 1, 1).hash_password("password", b"somesalt".to_vec()),
        Err(Error::MemoryTooLittle)
    );
    assert_eq!(
        Argon2::new(7, 1, 0).hash_password("password", b"somesalt".to_vec()),
        Err(Error::MemoryTooLittle)
    );
}

#[test]
fn no_lane_is_rejected() {
    let params = Argon2::new(64, 1, 0);
    assert_eq!(params.derive(b"password", b"somesalt", None, None), Err(Error::LanesTooFew));
    assert_eq!(params.validate(lengths(8, 8, 0, 0), SaltPolicy::Any), Err(Error::LanesTooFew));
}

#[test]
fn too_many_lanes_are_rejected() {
    let most = Argon2::new(u32::MAX, 1, 0xff_ffff);
    assert_eq!(most.validate(lengths(8, 8, 0, 0), SaltPolicy::Any), Ok(()));
    let more = Argon2::new(u32::MAX, 1, 0x100_0000);
    assert_eq!(more.validate(lengths(8, 8, 0, 0), SaltPolicy::Any), Err(Error::LanesTooMany));
    assert_eq!(more.derive(b"password", b"somesalt", None, None), Err(Error::LanesTooMany));
}

#[test]
fn no_pass_is_rejected() {
    let params = Argon2::new(64, 0, 1);
    assert_eq!(params.derive(b"password", b"somesalt", None, None), Err(Error::TimeTooSmall));
}

#[test]
fn tag_length_bounds() {
    for length in [0u64, 1, 2, 3] {
        let params = small().with_hash_length(length);
        assert_eq!(params.derive(b"password", b"somesalt", None, None), Err(Error::OutputTooShort));
    }
    assert_eq!(small().with_hash_length(4).derive(b"password", b"somesalt", None, None).unwrap().len(), 4);
    let most = small().with_hash_length(0xffff_ffff);
    assert_eq!(most.validate(lengths(8, 8, 0, 0), SaltPolicy::Any), Ok(()));
    for length in [0x1_0000_0000u64, 0x1_0000_0040, u64::MAX] {
        let params = small().with_hash_length(length);
        assert_eq!(params.derive(b"password", b"somesalt", None, None), Err(Error::OutputTooLong));
    }
}

#[test]
fn a_short_salt_is_accepted_unless_the_policy_refuses_it() {
    let params = small();
    for n in 0usize..8 {
        let salt = vec![7u8; n];
        assert_eq!(params.validate(lengths(8, n, 0, 0), SaltPolicy::Any), Ok(()));
        assert_eq!(
            params.validate(lengths(8, n, 0, 0), SaltPolicy::Recommended),
            Err(Error::SaltTooShort)
        );
        assert_eq!(params.derive(b"password", &salt, None, None).unwrap().len(), 32);
    }
    assert_eq!(params.validate(lengths(8, 8, 0, 0), SaltPolicy::Recommended), Ok(()));
    assert_eq!(SaltPolicy::Any.min_length(), 0);
    assert_eq!(SaltPolicy::Recommended.min_length(), 8);
}

#[test]
fn salts_of_different_short_lengths_give_different_tags() {
    let params = small();
    let a = params.derive(b"password", b"", None, None).unwrap();
    let b = params.derive(b"password", b"\0", None, None).unwrap();
    let c = params.derive(b"password", b"\0\0", None, None).unwrap();
    assert_ne!(a, b);
    assert_ne!(b, c);
    assert_ne!(a, c);
}

#[test]
fn inputs_longer_than_32_bits_are_rejected() {
    let params = small();
    let over = 0x1_0000_0000u64 as usize;
    if over as u64 == 0x1_0000_0000 {
        let most = 0xffff_ffffusize;
        assert_eq!(params.validate(lengths(most, most, most, most), SaltPolicy::Any), Ok(()));
        assert_eq!(params.validate(lengths(over, 8, 0, 0), SaltPolicy::Any), Err(Error::PasswordTooLong));
        assert_eq!(params.validate(lengths(0, over, 0, 0), SaltPolicy::Any), Err(Error::SaltTooLong));
        assert_eq!(params.validate(lengths(0, 8, over, 0), SaltPolicy::Any), Err(Error::SecretTooLong));
        assert_eq!(params.validate(lengths(0, 8, 0, over), SaltPolicy::Any), Err(Error::AdTooLong));
    }
}

#[test]
fn the_first_failing_bound_is_reported() {
    let all_wrong = Argon2 {
        m_cost: 0,
        t_cost: 0,
        p_cost: 0,
        hash_length: 0,
        algorithm: Algorithm::Argon2id,
        version: Version::V0x13,
    };
    assert_eq!(all_wrong.validate(lengths(0, 0, 0, 0), SaltPolicy::Recommended), Err(Error::OutputTooShort));
    let a = Argon2 { hash_length: 32, ..all_wrong.clone() };
    assert_eq!(a.validate(lengths(0, 0, 0, 0), SaltPolicy::Recommended), Err(Error::SaltTooShort));
    assert_eq!(a.validate(lengths(0, 0, 0, 0), SaltPolicy::Any), Err(Error::MemoryTooLittle));
    let b = Argon2 { m_cost: 8, ..a.clone() };
    assert_eq!(b.validate(lengths(0, 0, 0, 0), SaltPolicy::Any), Err(Error::TimeTooSmall));
    let c = Argon2 { t_cost: 1, ..b.clone() };
    assert_eq!(c.validate(lengths(0, 0, 0, 0), SaltPolicy::Any), Err(Error::LanesTooFew));
    let d = Argon2 { p_cost: 1, ..c.clone() };
    assert_eq!(d.validate(lengths(0, 0, 0, 0), SaltPolicy::Any), Ok(()));
}

#[test]
fn error_kinds() {
    for e in [
        Error::OutputTooShort,
        Error::OutputTooLong,
        Error::PasswordTooLong,
        Error::SaltTooShort,
        Error::SaltTooLong,
        Error::SecretTooLong,
        Error::AdTooLong,
        Error::MemoryTooLittle,
        Error::MemoryTooMuch,
        Error::TimeTooSmall,
        Error::LanesTooFew,
        Error::LanesTooMany,
    ] {
        assert_eq!(e.kind(), ErrorKind::Parameter);
    }
    assert_eq!(Error::Allocation.kind(), ErrorKind::Allocation);
    assert_eq!(Error::Internal(-33).kind(), ErrorKind::Internal);
}

#[test]
fn native_status_codes() {
    assert_eq!(Error::from_code(-2), Error::OutputTooShort);
    assert_eq!(Error::from_code(-3), Error::OutputTooLong);
    assert_eq!(Error::from_code(-5), Error::PasswordTooLong);
    assert_eq!(Error::from_code(-6), Error::SaltTooShort);
    assert_eq!(Error::from_code(-7), Error::SaltTooLong);
    assert_eq!(Error::from_code(-9), Error::AdTooLong);
    assert_eq!(Error::from_code(-11), Error::SecretTooLong);
    assert_eq!(Error::from_code(-12), Error::TimeTooSmall);
    assert_eq!(Error::from_code(-14), Error::MemoryTooLittle);
    assert_eq!(Error::from_code(-15), Error::MemoryTooMuch);
    assert_eq!(Error::from_code(-16), Error::LanesTooFew);
    assert_eq!(Error::from_code(-17), Error::LanesTooMany);
    assert_eq!(Error::from_code(-22), Error::Allocation);
    assert_eq!(Error::from_code(-1), Error::Internal(-1));
    assert_eq!(Error::from_code(-33), Error::Internal(-33));
    assert_eq!(Error::from_code(0), Error::Internal(0));
    for code in -40..=5 {
        assert_eq!(Error::from_code(code).code(), code);
    }
}

#[test]
fn derive_in_a_memory_of_the_caller() {
    let params = Argon2::new(37, 2, 2).with_hash_length(48);
    // 37 KiB with 2 lanes round down to 4 segments of 4 blocks per lane.
    let mut memory = vec![0u64; 128 * 32];
    let tag = params.derive_in(b"password", b"somesalt", b"key", b"data", &mut memory);
    assert!(memory.is_empty());
    // What the memory held before does not matter.
    let mut used: Vec<u64> = (0..128 * 32u64).map(|i| i.wrapping_mul(0x9e37_79b9)).collect();
    assert_eq!(tag, params.derive_in(b"password", b"somesalt", b"key", b"data", &mut used));
    assert!(used.is_empty());
    assert_eq!(tag, params.derive(b"password", b"somesalt", Some(b"key"), Some(b"data")).unwrap());
}

#[test]
fn hash_and_scrub_empties_both_buffers() {
    let params = small();
    let mut password = b"password".to_vec();
    let mut salt = b"somesalt".to_vec();
    let tag = params.hash_and_scrub(&mut password, &mut salt).unwrap();
    assert!(password.is_empty());
    assert!(salt.is_empty());
    assert_eq!(tag, params.hash_password("password", b"somesalt".to_vec()).unwrap());
}

#[test]
fn hash_and_scrub_empties_both_buffers_on_error() {
    let params = small().with_hash_length(0);
    let mut password = b"password".to_vec();
    let mut salt = b"somesalt".to_vec();
    assert_eq!(params.hash_and_scrub(&mut password, &mut salt), Err(Error::OutputTooShort));
    assert!(password.is_empty());
    assert!(salt.is_empty());
}

#[test]
fn memory_only_where_the_allocator_gave_it() {
    let mut fresh: Vec<u64> = Vec::new();
    let granted = fresh.try_reserve(256);
    assert!(granted.is_ok());
    assert_eq!(memory_if_reserved(fresh, granted, 256), Some(vec![0u64; 256]));

    let mut used: Vec<u64> = vec![7; 300];
    let granted = used.try_reserve(4);
    assert!(granted.is_ok());
    assert_eq!(memory_if_reserved(used, granted, 4), Some(vec![0u64; 4]));

    let mut empty: Vec<u64> = Vec::new();
    let granted = empty.try_reserve(0);
    assert!(granted.is_ok());
    assert_eq!(memory_if_reserved(empty, granted, 0), Some(Vec::new()));

    // More words than any allocation may hold: the reservation is refused.
    let mut large: Vec<u64> = vec![7; 3];
    let refused = large.try_reserve(usize::MAX);
    assert!(refused.is_err());
    assert_eq!(memory_if_reserved(large, refused, 256), None);
}
