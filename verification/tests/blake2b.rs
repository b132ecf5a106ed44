use argon2_rs::blake2b::hash;

fn hex(s: &str) -> Vec<u8> {
    let b = s.as_bytes();
    let mut out = Vec::new();
    let mut i = 0;
    while i + 1 < b.len() {
        let hi = (b[i] as char).to_digit(16).unwrap() as u8;
        let lo = (b[i + 1] as char).to_digit(16).unwrap() as u8;
        out.push(hi * 16 + lo);
        i += 2;
    }
    out
}

fn pattern(n: usize, mul: usize, modulus: usize) -> Vec<u8> {
    (0..n).map(|i| ((mul * i) % modulus) as u8).collect()
}

#[test]
fn blake2b_empty_64() {
    let data: Vec<u8> = Vec::new();
    assert_eq!(hash(&data, 64), hex("786a02f742015903c6c6fd852552d272912f4740e15847618a86e217f71f5419d25e1031afee585313896444934eb04b903a685b1448b755d56f701afe9be2ce"));
}

#[test]
fn blake2b_abc_64() {
    let data: Vec<u8> = b"abc".to_vec();
    assert_eq!(hash(&data, 64), hex("ba80a53f981c4d0d6a2797b69f12f6e94c212f14685ac4b74b12bb6fdbffa2d17d87c5392aab792dc252d5de4533cc9518d38aa8dbf1925ab92386edd4009923"));
}

#[test]
fn blake2b_abc_32() {
    let data: Vec<u8> = b"abc".to_vec();
    assert_eq!(hash(&data, 32), hex("bddd813c634239723171ef3fee98579b94964e3bb1cb3e427262c8c068d52319"));
}

#[test]
fn blake2b_one_full_block_64() {
    let data: Vec<u8> = pattern(128, 1, 256);
    assert_eq!(hash(&data, 64), hex("2319e3789c47e2daa5fe807f61bec2a1a6537fa03f19ff32e87eecbfd64b7e0e8ccff439ac333b040f19b0c4ddd11a61e24ac1fe0f10a039806c5dcc0da3d115"));
}

#[test]
fn blake2b_one_block_and_a_byte_48() {
    let data: Vec<u8> = pattern(129, 1, 256);
    assert_eq!(hash(&data, 48), hex("a95db6e5ccd191793ad20179bfd63e8c7aedf0cc1084549f73127e3fccc738b405ac2a93d692e76214320089121073e5"));
}

#[test]
fn blake2b_255_bytes_4() {
    let data: Vec<u8> = pattern(255, 1, 251);
    assert_eq!(hash(&data, 4), hex("6e8193d3"));
}

#[test]
fn blake2b_two_full_blocks_1() {
    let data: Vec<u8> = pattern(256, 1, 251);
    assert_eq!(hash(&data, 1), hex("59"));
}

#[test]
fn blake2b_two_blocks_and_a_byte_64() {
    let data: Vec<u8> = pattern(257, 1, 251);
    assert_eq!(hash(&data, 64), hex("9ca40e2ddee9436dbbd08efc65dbaf4870059f5eb3d76efd20241ae5bf13c60f250b882ea5c564838257a3fc95c496819ace2c6490b55b268535208dfc31822c"));
}

#[test]
fn blake2b_1000_bytes_33() {
    let data: Vec<u8> = pattern(1000, 7, 256);
    assert_eq!(hash(&data, 33), hex("6758b293cbcf30601a65b833bafa4c8a02192cfafabce6534210ced6f95affcc41"));
}

