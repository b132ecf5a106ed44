use argon2_rs::{Algorithm, Argon2, Version};

fn hex(s: &str) -> Vec<u8> {
    let b = s.as_bytes();
    let mut out = Vec::new();
    let mut i = 0;
    while i + 1 < b.len() {
        let hi = (b[i] as char).to_digit(16).unwrap() as u8;
        let lo = (b[i + 1] as char).to_digit(16).unwrap() as u8;
        out.push(hi * 16 + lo);
        i += 2;
    }
    out
}

fn raw(
    algorithm: Algorithm,
    version: Version,
    t_cost: u32,
    log_m: u32,
    p_cost: u32,
    password: &str,
    salt: &str,
) -> Vec<u8> {
    Argon2::new(1 << log_m, t_cost, p_cost)
        .with_algorithm(algorithm)
        .with_version(version)
        .with_hash_length(32)
        .hash_password(password, salt.as_bytes().to_vec())
        .unwrap()
}

fn known_answer(algorithm: Algorithm, version: Version) -> Vec<u8> {
    Argon2::new(32, 3, 4)
        .with_algorithm(algorithm)
        .with_version(version)
        .with_hash_length(32)
        .derive(&[1u8; 32], &[2u8; 16], Some(&[3u8; 8]), Some(&[4u8; 12]))
        .unwrap()
}

#[test]
fn known_answer_argon2d_v0x13() {
    assert_eq!(
        known_answer(Algorithm::Argon2d, Version::V0x13),
        hex("512b391b6f1162975371d30919734294f868e3be3984f3c1a13a4db9fabe4acb")
    );
}

#[test]
fn known_answer_argon2i_v0x13() {
    assert_eq!(
        known_answer(Algorithm::Argon2i, Version::V0x13),
        hex("c814d9d1dc7f37aa13f0d77f2494bda1c8de6b016dd388d29952a4c4672b6ce8")
    );
}

#[test]
fn known_answer_argon2id_v0x13() {
    assert_eq!(
        known_answer(Algorithm::Argon2id, Version::V0x13),
        hex("0d640df58d78766c08c037a34a8b53c9d01ef0452d75b65eb52520e96b01e659")
    );
}

#[test]
fn known_answer_argon2d_v0x10() {
    assert_eq!(
        known_answer(Algorithm::Argon2d, Version::V0x10),
        hex("96a9d4e5a1734092c85e29f410a45914a5dd1f5cbf08b2670da68a0285abf32b")
    );
}

#[test]
fn known_answer_argon2i_v0x10() {
    assert_eq!(
        known_answer(Algorithm::Argon2i, Version::V0x10),
        hex("87aeedd6517ab830cd9765cd8231abb2e647a5dee08f7c05e02fcb763335d0fd")
    );
}

#[test]
fn known_answer_argon2id_v0x10() {
    assert_eq!(
        known_answer(Algorithm::Argon2id, Version::V0x10),
        hex("b64615f07789b66b645b67ee9ed3b377ae350b6bfcbb0fc95141ea8f322613c0")
    );
}

#[test]
fn vector_argon2i_v0x10_t2_m16_p1_password_somesalt() {
    assert_eq!(
        raw(Algorithm::Argon2i, Version::V0x10, 2, 16, 1, "password", "somesalt"),
        hex("f6c4db4a54e2a370627aff3db6176b94a2a209a62c8e36152711802f7b30c694")
    );
}

#[test]
fn vector_argon2i_v0x10_t2_m18_p1_password_somesalt() {
    assert_eq!(
        raw(Algorithm::Argon2i, Version::V0x10, 2, 18, 1, "password", "somesalt"),
        hex("3e689aaa3d28a77cf2bc72a51ac53166761751182f1ee292e3f677a7da4c2467")
    );
}

#[test]
fn vector_argon2i_v0x10_t2_m8_p1_password_somesalt() {
    assert_eq!(
        raw(Algorithm::Argon2i, Version::V0x10, 2, 8, 1, "password", "somesalt"),
        hex("fd4dd83d762c49bdeaf57c47bdcd0c2f1babf863fdeb490df63ede9975fccf06")
    );
}

#[test]
fn vector_argon2i_v0x10_t2_m8_p2_password_somesalt() {
    assert_eq!(
        raw(Algorithm::Argon2i, Version::V0x10, 2, 8, 2, "password", "somesalt"),
        hex("b6c11560a6a9d61eac706b79a2f97d68b4463aa3ad87e00c07e2b01e90c564fb")
    );
}

#[test]
fn vector_argon2i_v0x10_t1_m16_p1_password_somesalt() {
    assert_eq!(
        raw(Algorithm::Argon2i, Version::V0x10, 1, 16, 1, "password", "somesalt"),
        hex("81630552b8f3b1f48cdb1992c4c678643d490b2b5eb4ff6c4b3438b5621724b2")
    );
}

#[test]
fn vector_argon2i_v0x10_t4_m16_p1_password_somesalt() {
    assert_eq!(
        raw(Algorithm::Argon2i, Version::V0x10, 4, 16, 1, "password", "somesalt"),
        hex("f212f01615e6eb5d74734dc3ef40ade2d51d052468d8c69440a3a1f2c1c2847b")
    );
}

#[test]
fn vector_argon2i_v0x10_t2_m16_p1_differentpassword_somesalt() {
    assert_eq!(
        raw(Algorithm::Argon2i, Version::V0x10, 2, 16, 1, "differentpassword", "somesalt"),
        hex("e9c902074b6754531a3a0be519e5baf404b30ce69b3f01ac3bf21229960109a3")
    );
}

#[test]
fn vector_argon2i_v0x10_t2_m16_p1_password_diffsalt() {
    assert_eq!(
        raw(Algorithm::Argon2i, Version::V0x10, 2, 16, 1, "password", "diffsalt"),
        hex("79a103b90fe8aef8570cb31fc8b22259778916f8336b7bdac3892569d4f1c497")
    );
}

#[test]
fn vector_argon2i_v0x13_t2_m16_p1_password_somesalt() {
    assert_eq!(
        raw(Algorithm::Argon2i, Version::V0x13, 2, 16, 1, "password", "somesalt"),
        hex("c1628832147d9720c5bd1cfd61367078729f6dfb6f8fea9ff98158e0d7816ed0")
    );
}

#[test]
fn vector_argon2i_v0x13_t2_m18_p1_password_somesalt() {
    assert_eq!(
        raw(Algorithm::Argon2i, Version::V0x13, 2, 18, 1, "password", "somesalt"),
        hex("296dbae80b807cdceaad44ae741b506f14db0959267b183b118f9b24229bc7cb")
    );
}

#[test]
fn vector_argon2i_v0x13_t2_m8_p1_password_somesalt() {
    assert_eq!(
        raw(Algorithm::Argon2i, Version::V0x13, 2, 8, 1, "password", "somesalt"),
        hex("89e9029f4637b295beb027056a7336c414fadd43f6b208645281cb214a56452f")
    );
}

#[test]
fn vector_argon2i_v0x13_t2_m8_p2_password_somesalt() {
    assert_eq!(
        raw(Algorithm::Argon2i, Version::V0x13, 2, 8, 2, "password", "somesalt"),
        hex("4ff5ce2769a1d7f4c8a491df09d41a9fbe90e5eb02155a13e4c01e20cd4eab61")
    );
}

#[test]
fn vector_argon2i_v0x13_t1_m16_p1_password_somesalt() {
    assert_eq!(
        raw(Algorithm::Argon2i, Version::V0x13, 1, 16, 1, "password", "somesalt"),
        hex("d168075c4d985e13ebeae560cf8b94c3b5d8a16c51916b6f4ac2da3ac11bbecf")
    );
}

#[test]
fn vector_argon2i_v0x13_t4_m16_p1_password_somesalt() {
    assert_eq!(
        raw(Algorithm::Argon2i, Version::V0x13, 4, 16, 1, "password", "somesalt"),
        hex("aaa953d58af3706ce3df1aefd4a64a84e31d7f54175231f1285259f88174ce5b")
    );
}

#[test]
fn vector_argon2i_v0x13_t2_m16_p1_differentpassword_somesalt() {
    assert_eq!(
        raw(Algorithm::Argon2i, Version::V0x13, 2, 16, 1, "differentpassword", "somesalt"),
        hex("14ae8da01afea8700c2358dcef7c5358d9021282bd88663a4562f59fb74d22ee")
    );
}

#[test]
fn vector_argon2i_v0x13_t2_m16_p1_password_diffsalt() {
    assert_eq!(
        raw(Algorithm::Argon2i, Version::V0x13, 2, 16, 1, "password", "diffsalt"),
        hex("b0357cccfbef91f3860b0dba447b2348cbefecadaf990abfe9cc40726c521271")
    );
}

#[test]
fn vector_argon2id_v0x13_t2_m16_p1_password_somesalt() {
    assert_eq!(
        raw(Algorithm::Argon2id, Version::V0x13, 2, 16, 1, "password", "somesalt"),
        hex("09316115d5cf24ed5a15a31a3ba326e5cf32edc24702987c02b6566f61913cf7")
    );
}

#[test]
fn vector_argon2id_v0x13_t2_m18_p1_password_somesalt() {
    assert_eq!(
        raw(Algorithm::Argon2id, Version::V0x13, 2, 18, 1, "password", "somesalt"),
        hex("78fe1ec91fb3aa5657d72e710854e4c3d9b9198c742f9616c2f085bed95b2e8c")
    );
}

#[test]
fn vector_argon2id_v0x13_t2_m8_p1_password_somesalt() {
    assert_eq!(
        raw(Algorithm::Argon2id, Version::V0x13, 2, 8, 1, "password", "somesalt"),
        hex("9dfeb910e80bad0311fee20f9c0e2b12c17987b4cac90c2ef54d5b3021c68bfe")
    );
}

#[test]
fn vector_argon2id_v0x13_t2_m8_p2_password_somesalt() {
    assert_eq!(
        raw(Algorithm::Argon2id, Version::V0x13, 2, 8, 2, "password", "somesalt"),
        hex("6d093c501fd5999645e0ea3bf620d7b8be7fd2db59c20d9fff9539da2bf57037")
    );
}

#[test]
fn vector_argon2id_v0x13_t1_m16_p1_password_somesalt() {
    assert_eq!(
        raw(Algorithm::Argon2id, Version::V0x13, 1, 16, 1, "password", "somesalt"),
        hex("f6a5adc1ba723dddef9b5ac1d464e180fcd9dffc9d1cbf76cca2fed795d9ca98")
    );
}

#[test]
fn vector_argon2id_v0x13_t4_m16_p1_password_somesalt() {
    assert_eq!(
        raw(Algorithm::Argon2id, Version::V0x13, 4, 16, 1, "password", "somesalt"),
        hex("9025d48e68ef7395cca9079da4c4ec3affb3c8911fe4f86d1a2520856f63172c")
    );
}

#[test]
fn vector_argon2id_v0x13_t2_m16_p1_differentpassword_somesalt() {
    assert_eq!(
        raw(Algorithm::Argon2id, Version::V0x13, 2, 16, 1, "differentpassword", "somesalt"),
        hex("0b84d652cf6b0c4beaef0dfe278ba6a80df6696281d7e0d2891b817d8c458fde")
    );
}

#[test]
fn vector_argon2id_v0x13_t2_m16_p1_password_diffsalt() {
    assert_eq!(
        raw(Algorithm::Argon2id, Version::V0x13, 2, 16, 1, "password", "diffsalt"),
        hex("bdf32b05ccc42eb15d58fd19b1f856b113da1e9a5874fdcc544308565aa8141c")
    );
}

