use dupfind::hash::{addw, digest, to_u32, Block, State, SHA256};

fn hex_state(s: &str) -> State {
    let mut r: State = [0; 8];
    for i in 0..8 {
        r[i] = u32::from_str_radix(&s[8 * i..8 * i + 8], 16).unwrap();
    }
    r
}

fn repeated(n: usize) -> Vec<u8> {
    vec![b'a'; n]
}

#[test]
fn test_conversion() {
    let block: Block = [
        0, 1, 2, 3, 4, 5, 6, 7, 8, 9, 10, 11, 12, 13, 14, 15,
        16, 17, 18, 19, 20, 21, 22, 23, 24, 25, 26, 27, 28, 29, 30, 31,
        0, 1, 2, 3, 4, 5, 6, 7, 8, 9, 10, 11, 12, 13, 14, 15,
        16, 17, 18, 19, 20, 21, 22, 23, 24, 25, 26, 27, 28, 29, 30, 31,
    ];
    let expected: [u32; 16] = [
        0x00010203, 0x04050607, 0x08090a0b, 0x0c0d0e0f,
        0x10111213, 0x14151617, 0x18191a1b, 0x1c1d1e1f,
        0x00010203, 0x04050607, 0x08090a0b, 0x0c0d0e0f,
        0x10111213, 0x14151617, 0x18191a1b, 0x1c1d1e1f,
    ];
    let mut got: [u32; 16] = [0; 16];
    to_u32(&block, &mut got);
    assert_eq!(expected, got);
}

#[test]
fn test_addw() {
    assert_eq!(6, addw(1 as u32, addw(2 as u32, 3 as u32)));
    assert_eq!(0, addw(0xffff_ffff as u32, 1 as u32));
}

#[test]
fn test_hash() {
    // case 1
    let input = "abc".as_bytes();
    let hash = [
        0xba7816bf, 0x8f01cfea, 0x414140de, 0x5dae2223,
        0xb00361a3, 0x96177a9c, 0xb410ff61, 0xf20015ad];
    let mut sha = SHA256::new();
    let mut block: Block = [0; 64];
    block[0..input.len()].copy_from_slice(input);
    let got = sha.finalize(&mut block, input.len());
    assert_eq!(hash, got);

    // case 2
    let input = "abcdbcdecdefdefgefghfghighijhijkijkljklmklmnlmnomnopnopq".as_bytes();
    let hash = [
        0x248d6a61, 0xd20638b8, 0xe5c02693, 0x0c3e6039,
        0xa33ce459, 0x64ff2167, 0xf6ecedd4, 0x19db06c1];
    let mut sha = SHA256::new();
    let mut block: Block = [0; 64];
    block[0..input.len()].copy_from_slice(input);
    let got = sha.finalize(&mut block, input.len());
    assert_eq!(hash, got);
}

#[test]
fn digest_of_empty_input() {
    assert_eq!(
        digest(&[]),
        hex_state("e3b0c44298fc1c149afbf4c8996fb92427ae41e4649b934ca495991b7852b855")
    );
}

#[test]
fn digest_of_abc() {
    assert_eq!(
        digest(b"abc"),
        hex_state("ba7816bf8f01cfea414140de5dae2223b00361a396177a9cb410ff61f20015ad")
    );
}

#[test]
fn digest_of_two_block_vectors() {
    assert_eq!(
        digest(b"abcdbcdecdefdefgefghfghighijhijkijkljklmklmnlmnomnopnopq"),
        hex_state("248d6a61d20638b8e5c026930c3e6039a33ce45964ff2167f6ecedd419db06c1")
    );
    assert_eq!(
        digest(b"abcdefghbcdefghicdefghijdefghijkefghijklfghijklmghijklmnhijklmnoijklmnopjklmnopqklmnopqrlmnopqrsmnopqrstnopqrstu"),
        hex_state("cf5b16a778af8380036ce59e7b0492370b249b11e8f07a51afac45037afee9d1")
    );
}

#[test]
fn digest_at_block_boundaries() {
    let cases = [
        (55, "9f4390f8d30c2dd92ec9f095b65e2b9ae9b0a925a5258e241c9f1e910f734318"),
        (56, "b35439a4ac6f0948b6d6f9e3c6af0f5f590ce20f1bde7090ef7970686ec6738a"),
        (63, "7d3e74a05d7db15bce4ad9ec0658ea98e3f06eeecf16b4c6fff2da457ddc2f34"),
        (64, "ffe054fe7ae0cb6dc65c3af9b61d5209f439851db43d0ba5997337df154668eb"),
        (65, "635361c48bb9eab14198e76ea8ab7f1a41685d6ad62aa9146d301d4f17eb0ae0"),
        (119, "31eba51c313a5c08226adf18d4a359cfdfd8d2e816b13f4af952f7ea6584dcfb"),
        (120, "2f3d335432c70b580af0e8e1b3674a7c020d683aa5f73aaaedfdc55af904c21c"),
        (1000, "41edece42d63e8d9bf515a9ba6932e1c20cbc9f5a5d134645adb5db1b9737ea3"),
    ];
    for (n, expected) in cases {
        assert_eq!(digest(&repeated(n)), hex_state(expected), "length {}", n);
    }
}

#[test]
fn digest_of_a_million_bytes() {
    assert_eq!(
        digest(&repeated(1_000_000)),
        hex_state("cdc76e5c9914fb9281a1c7e284d73e67f1809a48a497200e046d39ccc7112cd0")
    );
}

#[test]
fn streaming_matches_one_shot() {
    let data: Vec<u8> = (0..5000u32).map(|i| (i % 251) as u8).collect();
    let mut sha = SHA256::new();
    let mut block: Block = [0; 64];
    let mut pos = 0;
    while data.len() - pos >= 64 {
        block.copy_from_slice(&data[pos..pos + 64]);
        sha.process(&block);
        pos += 64;
    }
    let rest = data.len() - pos;
    block[..rest].copy_from_slice(&data[pos..]);
    let streamed = sha.finalize(&mut block, rest);
    assert_eq!(streamed, digest(&data));
    assert_eq!(
        streamed,
        hex_state("69dbee893909fa17d1be397e0c07691336fe42049c29d403467d3d4a1fc3b5a1")
    );
}

#[test]
fn digest_is_deterministic() {
    let data = b"the same bytes, hashed twice".to_vec();
    assert_eq!(digest(&data), digest(&data.clone()));
    assert_ne!(digest(b"abc"), digest(b"abd"));
}

#[test]
fn finalize_leaves_the_last_padded_block() {
    let mut sha = SHA256::new();
    let mut block: Block = [0xff; 64];
    block[0..3].copy_from_slice(b"abc");
    sha.finalize(&mut block, 3);
    let mut expected: Block = [0; 64];
    expected[0..3].copy_from_slice(b"abc");
    expected[3] = 0x80;
    expected[63] = 24;
    assert_eq!(block, expected);
}
