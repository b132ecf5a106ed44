use argon2_rs::{Algorithm, Argon2, Version};

fn independent(
    params: &Argon2,
    password: &[u8],
    salt: &[u8],
    secret: &[u8],
    associated_data: &[u8],
) -> Vec<u8> {
    let algorithm = match params.algorithm {
        Algorithm::Argon2d => argon2::Algorithm::Argon2d,
        Algorithm::Argon2i => argon2::Algorithm::Argon2i,
        Algorithm::Argon2id => argon2::Algorithm::Argon2id,
    };
    let version = match params.version {
        Version::V0x10 => argon2::Version::V0x10,
        Version::V0x13 => argon2::Version::V0x13,
    };
    let mut builder = argon2::ParamsBuilder::new();
    builder
        .m_cost(params.m_cost)
        .t_cost(params.t_cost)
        .p_cost(params.p_cost)
        .output_len(params.hash_length as usize)
        .data(argon2::AssociatedData::new(associated_data).unwrap());
    let built = builder.build().unwrap();
    let context = argon2::Argon2::new_with_secret(secret, algorithm, version, built).unwrap();
    let mut out = vec![0u8; params.hash_length as usize];
    context.hash_password_into(password, salt, &mut out).unwrap();
    out
}

fn agree(params: &Argon2, password: &[u8], salt: &[u8], secret: &[u8], associated_data: &[u8]) {
    let ours = params
        .derive(password, salt, Some(secret), Some(associated_data))
        .unwrap();
    let theirs = independent(params, password, salt, secret, associated_data);
    assert_eq!(ours, theirs, "{:?}", params);
}

fn sweep(algorithm: Algorithm, version: Version) {
    for p_cost in 1u32..=4 {
        for extra in [0u32, 1, 3, 5, 37] {
            for t_cost in 1u32..=3 {
                let params = Argon2::new(8 * p_cost + extra, t_cost, p_cost)
                    .with_algorithm(algorithm)
                    .with_version(version)
                    .with_hash_length(32);
                agree(&params, b"password", b"somesalt", b"", b"");
                agree(&params, b"", b"saltsaltsaltsalt", b"key", b"associated");
            }
        }
    }
}

#[test]
fn agrees_with_an_independent_implementation_argon2d_v0x13() {
    sweep(Algorithm::Argon2d, Version::V0x13);
}

#[test]
fn agrees_with_an_independent_implementation_argon2i_v0x13() {
    sweep(Algorithm::Argon2i, Version::V0x13);
}

#[test]
fn agrees_with_an_independent_implementation_argon2id_v0x13() {
    sweep(Algorithm::Argon2id, Version::V0x13);
}

#[test]
fn agrees_with_an_independent_implementation_argon2d_v0x10() {
    sweep(Algorithm::Argon2d, Version::V0x10);
}

#[test]
fn agrees_with_an_independent_implementation_argon2i_v0x10() {
    sweep(Algorithm::Argon2i, Version::V0x10);
}

#[test]
fn agrees_with_an_independent_implementation_argon2id_v0x10() {
    sweep(Algorithm::Argon2id, Version::V0x10);
}

#[test]
fn agrees_with_an_independent_implementation_on_tag_lengths() {
    for length in [4u64, 5, 31, 32, 33, 63, 64, 65, 96, 97, 127, 128, 129, 1023, 1024, 1025, 4096]
    {
        for algorithm in [Algorithm::Argon2d, Algorithm::Argon2i, Algorithm::Argon2id] {
            let params = Argon2::new(16, 2, 2)
                .with_algorithm(algorithm)
                .with_hash_length(length);
            agree(&params, b"password", b"somesalt", b"secret", b"data");
        }
    }
}

#[test]
fn agrees_with_an_independent_implementation_on_input_lengths() {
    let long: Vec<u8> = (0..1000usize).map(|i| (i * 7 % 256) as u8).collect();
    for n in [0usize, 1, 55, 56, 63, 64, 65, 119, 120, 127, 128, 129, 255, 256, 257, 1000] {
        let params = Argon2::new(8, 1, 1).with_hash_length(16);
        agree(&params, &long[..n], b"somesalt", b"", b"");
        let salt: Vec<u8> = long[..n.max(8)].to_vec();
        agree(&params, b"password", &salt, &long[..n], &long[..n.min(32)]);
    }
}

#[test]
fn agrees_with_an_independent_implementation_over_several_address_blocks() {
    // Segments longer than 128 blocks draw more than one block of
    // data-independent addresses.
    for algorithm in [Algorithm::Argon2i, Algorithm::Argon2id] {
        for version in [Version::V0x10, Version::V0x13] {
            let params = Argon2::new(4 * 300, 2, 1)
                .with_algorithm(algorithm)
                .with_version(version)
                .with_hash_length(32);
            agree(&params, b"password", b"somesalt", b"", b"");
            let params = Argon2::new(2 * 4 * 129 + 7, 3, 2)
                .with_algorithm(algorithm)
                .with_version(version)
                .with_hash_length(32);
            agree(&params, b"password", b"somesalt", b"", b"");
        }
    }
}

#[test]
fn agrees_with_an_independent_implementation_with_many_lanes() {
    for p_cost in [5u32, 8, 16, 33] {
        for algorithm in [Algorithm::Argon2d, Algorithm::Argon2i, Algorithm::Argon2id] {
            let params = Argon2::new(8 * p_cost + 11, 2, p_cost)
                .with_algorithm(algorithm)
                .with_hash_length(32);
            agree(&params, b"password", b"somesalt", b"", b"");
        }
    }
}

#[test]
fn example_vector_agrees() {
    let params = Argon2::new(65536, 2, 1).with_hash_length(32);
    let salt: Vec<u8> = (1u8..=16).collect();
    let ours = params.hash_password("password", salt.clone()).unwrap();
    let theirs = independent(&params, b"password", &salt, b"", b"");
    assert_eq!(ours, theirs);
}
