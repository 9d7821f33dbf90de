use secretbox::salsa20::{column_round, double_round, quarter_round, row_round, salsa20, XSalsa20};

#[test]
fn test_quarter_round() {
    assert_eq!(quarter_round((0, 0, 0, 0)), (0, 0, 0, 0));
    assert_eq!(
        quarter_round((1, 0, 0, 0)),
        (0x8008145, 0x80, 0x10200, 0x20500000)
    );
    assert_eq!(
        quarter_round((0, 1, 0, 0)),
        (0x88000100, 1, 0x200, 0x402000)
    );
    assert_eq!(quarter_round((0, 0, 1, 0)), (0x80040000, 0, 1, 0x2000));
    assert_eq!(
        quarter_round((0, 0, 0, 1)),
        (0x48044, 0x80, 0x10000, 0x20100001)
    );
    assert_eq!(
        quarter_round((0xe7e8c006, 0xc4f9417d, 0x6479b4b2, 0x68c67137)),
        (0xe876d72b, 0x9361dfd5, 0xf1460244, 0x948541a3)
    );
    assert_eq!(
        quarter_round((0xd3917c5b, 0x55f1c407, 0x52a58a7a, 0x8f887a3b)),
        (0x3e2f308c, 0xd90a8f36, 0x6ab2a923, 0x2883524c)
    );
}

#[test]
fn trivial_test_row_round() {
    assert_eq!(
        row_round([1, 0, 0, 0, 1, 0, 0, 0, 1, 0, 0, 0, 1, 0, 0, 0]),
        [
            0x08008145, 0x80, 0x10200, 0x20500000, 0x20100001, 0x48044, 0x80, 0x10000, 1, 0x2000,
            0x80040000, 0, 1, 0x200, 0x402000, 0x88000100
        ]
    );
    assert_eq!(
        row_round([
            0x08521bd6, 0x1fe88837, 0xbb2aa576, 0x3aa26365, 0xc54c6a5b, 0x2fc74c2f, 0x6dd39cc3,
            0xda0a64f6, 0x90a2f23d, 0x067f95a6, 0x06b35f61, 0x41e4732e, 0xe859c100, 0xea4d84b7,
            0x0f619bff, 0xbc6e965a
        ]),
        [
            0xa890d39d, 0x65d71596, 0xe9487daa, 0xc8ca6a86, 0x949d2192, 0x764b7754, 0xe408d9b9,
            0x7a41b4d1, 0x3402e183, 0x3c3af432, 0x50669f96, 0xd89ef0a8, 0x0040ede5, 0xb545fbce,
            0xd257ed4f, 0x1818882d
        ]
    );
}

#[test]
fn trivial_test_column_round() {
    assert_eq!(
        column_round([1, 0, 0, 0, 1, 0, 0, 0, 1, 0, 0, 0, 1, 0, 0, 0]),
        [0x10090288, 0, 0, 0, 0x101, 0, 0, 0, 0x20401, 0, 0, 0, 0x40a04001, 0, 0, 0]
    );
    assert_eq!(
        column_round([
            0x08521bd6, 0x1fe88837, 0xbb2aa576, 0x3aa26365, 0xc54c6a5b, 0x2fc74c2f, 0x6dd39cc3,
            0xda0a64f6, 0x90a2f23d, 0x067f95a6, 0x06b35f61, 0x41e4732e, 0xe859c100, 0xea4d84b7,
            0x0f619bff, 0xbc6e965a
        ]),
        [
            0x8c9d190a, 0xce8e4c90, 0x1ef8e9d3, 0x1326a71a, 0x90a20123, 0xead3c4f3, 0x63a091a0,
            0xf0708d69, 0x789b010c, 0xd195a681, 0xeb7d5504, 0xa774135c, 0x481c2027, 0x53a8e4b5,
            0x4c1f89c5, 0x3f78c9c8
        ]
    );
}

#[test]
fn trivial_test_double_round() {
    assert_eq!(
        double_round([1, 0, 0, 0, 0, 0, 0, 0, 0, 0, 0, 0, 0, 0, 0, 0]),
        [
            0x8186a22d, 0x0040a284, 0x82479210, 0x06929051, 0x08000090, 0x02402200, 0x00004000,
            0x00800000, 0x00010200, 0x20400000, 0x08008104, 0x00000000, 0x20500000, 0xa0000040,
            0x0008180a, 0x612a8020
        ]
    );
    assert_eq!(
        double_round([
            0xde501066, 0x6f9eb8f7, 0xe4fbbd9b, 0x454e3f57, 0xb75540d3, 0x43e93a4c, 0x3a6f2aa0,
            0x726d6b36, 0x9243f484, 0x9145d1e8, 0x4fa9d247, 0xdc8dee11, 0x054bf545, 0x254dd653,
            0xd9421b6d, 0x67b276c1
        ]),
        [
            0xccaaf672, 0x23d960f7, 0x9153e63a, 0xcd9a60d0, 0x50440492, 0xf07cad19, 0xae344aa0,
            0xdf4cfdfc, 0xca531c29, 0x8e7943db, 0xac1680cd, 0xd503ca00, 0xa74b2ad6, 0xbc331c5c,
            0x1dda24c7, 0xee928277
        ]
    );
}

#[test]
fn trivial_test_salsa20() {
    assert_eq!(salsa20([0; 16]), [0; 16]);
    assert_eq!(
        salsa20([
            0x730d9fd3, 0xb752374c, 0x25de7503, 0x88eabbbf, 0x30b3ed31, 0xdbb26a01, 0x30a6c7af,
            0xcfb31056, 0x3f20f01f, 0xa15d530f, 0x71309374, 0x24cc37ee, 0x4febc94f, 0x2f9c5103,
            0xf3f41acb, 0x36687658
        ]),
        [
            0xa8b22a6d, 0xeef8f09c, 0xcbbec4a8, 0x9aaa6e1a, 0x1a961d1d, 0xf9eb1e96, 0x30fba3be,
            0x39339045, 0x9d982876, 0x5e1b39b4, 0x23ec2a6b, 0x72726f1b, 0x87e8ecdb, 0x126e9b6f,
            0x9e5fe818, 0xca3013b3
        ]
    );
    assert_eq!(
        salsa20([
            0x36687658, 0x4febc94f, 0x2f9c5103, 0xf3f41acb, 0x88eabbbf, 0x730d9fd3, 0xb752374c,
            0x25de7503, 0xcfb31056, 0x30b3ed31, 0xdbb26a01, 0x30a6c7af, 0x24cc37ee, 0x3f20f01f,
            0xa15d530f, 0x71309374
        ]),
        [
            0xca3013b3, 0x87e8ecdb, 0x126e9b6f, 0x9e5fe818, 0x9aaa6e1a, 0xa8b22a6d, 0xeef8f09c,
            0xcbbec4a8, 0x39339045, 0x1a961d1d, 0xf9eb1e96, 0x30fba3be, 0x72726f1b, 0x9d982876,
            0x5e1b39b4, 0x23ec2a6b
        ]
    );
}

#[test]
fn trivial_salsa20_stress() {
    let input: [u32; 16] = [
        0x92537c06, 0x3209bf26, 0xde2fa104, 0xb9dfb67a, 0xd8001b4b, 0x59077a10, 0x936568a2,
        0x5f3615d5, 0xb08bfde1, 0x74178469, 0xcfb0294c, 0x6c9d22dd, 0x34635e5e, 0xdc5b755a,
        0x8fefbe92, 0xba82b0c4,
    ];
    let expected_output: [u32; 16] = [
        0xc7261208, 0x43d74c77, 0xa2907fad, 0xd9b0d467, 0x21e913c0, 0xa09ac59f, 0x41dbf380,
        0xe18788ab, 0x56440b7b, 0x9b1452ed, 0x5309bd85, 0x4ec274a7, 0xb9c37f7a, 0x5abcccb9,
        0xf8b709f5, 0x68f555e2,
    ];
    assert_eq!(
        (0..1_000_000).fold(input, |out, _| salsa20(out)),
        expected_output
    );
}

#[test]
fn simd_test_row_round() {
    assert_eq!(
        row_round([1, 0, 0, 0, 1, 0, 0, 0, 1, 0, 0, 0, 1, 0, 0, 0]),
        [
            0x08008145, 0x80, 0x10200, 0x20500000, 0x20100001, 0x48044, 0x80, 0x10000, 1, 0x2000,
            0x80040000, 0, 1, 0x200, 0x402000, 0x88000100
        ]
    );
    assert_eq!(
        row_round([
            0x08521bd6, 0x1fe88837, 0xbb2aa576, 0x3aa26365, 0xc54c6a5b, 0x2fc74c2f, 0x6dd39cc3,
            0xda0a64f6, 0x90a2f23d, 0x067f95a6, 0x06b35f61, 0x41e4732e, 0xe859c100, 0xea4d84b7,
            0x0f619bff, 0xbc6e965a
        ]),
        [
            0xa890d39d, 0x65d71596, 0xe9487daa, 0xc8ca6a86, 0x949d2192, 0x764b7754, 0xe408d9b9,
            0x7a41b4d1, 0x3402e183, 0x3c3af432, 0x50669f96, 0xd89ef0a8, 0x0040ede5, 0xb545fbce,
            0xd257ed4f, 0x1818882d
        ]
    );
}

#[test]
fn simd_test_column_round() {
    assert_eq!(
        column_round([1, 0, 0, 0, 1, 0, 0, 0, 1, 0, 0, 0, 1, 0, 0, 0]),
        [0x10090288, 0, 0, 0, 0x101, 0, 0, 0, 0x20401, 0, 0, 0, 0x40a04001, 0, 0, 0]
    );
    assert_eq!(
        column_round([
            0x08521bd6, 0x1fe88837, 0xbb2aa576, 0x3aa26365, 0xc54c6a5b, 0x2fc74c2f, 0x6dd39cc3,
            0xda0a64f6, 0x90a2f23d, 0x067f95a6, 0x06b35f61, 0x41e4732e, 0xe859c100, 0xea4d84b7,
            0x0f619bff, 0xbc6e965a
        ]),
        [
            0x8c9d190a, 0xce8e4c90, 0x1ef8e9d3, 0x1326a71a, 0x90a20123, 0xead3c4f3, 0x63a091a0,
            0xf0708d69, 0x789b010c, 0xd195a681, 0xeb7d5504, 0xa774135c, 0x481c2027, 0x53a8e4b5,
            0x4c1f89c5, 0x3f78c9c8
        ]
    );
}

#[test]
fn simd_test_double_round() {
    assert_eq!(
        double_round([1, 0, 0, 0, 0, 0, 0, 0, 0, 0, 0, 0, 0, 0, 0, 0]),
        [
            0x8186a22d, 0x0040a284, 0x82479210, 0x06929051, 0x08000090, 0x02402200, 0x00004000,
            0x00800000, 0x00010200, 0x20400000, 0x08008104, 0x00000000, 0x20500000, 0xa0000040,
            0x0008180a, 0x612a8020
        ]
    );
    assert_eq!(
        double_round([
            0xde501066, 0x6f9eb8f7, 0xe4fbbd9b, 0x454e3f57, 0xb75540d3, 0x43e93a4c, 0x3a6f2aa0,
            0x726d6b36, 0x9243f484, 0x9145d1e8, 0x4fa9d247, 0xdc8dee11, 0x054bf545, 0x254dd653,
            0xd9421b6d, 0x67b276c1
        ]),
        [
            0xccaaf672, 0x23d960f7, 0x9153e63a, 0xcd9a60d0, 0x50440492, 0xf07cad19, 0xae344aa0,
            0xdf4cfdfc, 0xca531c29, 0x8e7943db, 0xac1680cd, 0xd503ca00, 0xa74b2ad6, 0xbc331c5c,
            0x1dda24c7, 0xee928277
        ]
    );
}

#[test]
fn simd_test_salsa20() {
    assert_eq!(salsa20([0; 16]), [0; 16]);
    assert_eq!(
        salsa20([
            0x730d9fd3, 0xb752374c, 0x25de7503, 0x88eabbbf, 0x30b3ed31, 0xdbb26a01, 0x30a6c7af,
            0xcfb31056, 0x3f20f01f, 0xa15d530f, 0x71309374, 0x24cc37ee, 0x4febc94f, 0x2f9c5103,
            0xf3f41acb, 0x36687658
        ]),
        [
            0xa8b22a6d, 0xeef8f09c, 0xcbbec4a8, 0x9aaa6e1a, 0x1a961d1d, 0xf9eb1e96, 0x30fba3be,
            0x39339045, 0x9d982876, 0x5e1b39b4, 0x23ec2a6b, 0x72726f1b, 0x87e8ecdb, 0x126e9b6f,
            0x9e5fe818, 0xca3013b3
        ]
    );
    assert_eq!(
        salsa20([
            0x36687658, 0x4febc94f, 0x2f9c5103, 0xf3f41acb, 0x88eabbbf, 0x730d9fd3, 0xb752374c,
            0x25de7503, 0xcfb31056, 0x30b3ed31, 0xdbb26a01, 0x30a6c7af, 0x24cc37ee, 0x3f20f01f,
            0xa15d530f, 0x71309374
        ]),
        [
            0xca3013b3, 0x87e8ecdb, 0x126e9b6f, 0x9e5fe818, 0x9aaa6e1a, 0xa8b22a6d, 0xeef8f09c,
            0xcbbec4a8, 0x39339045, 0x1a961d1d, 0xf9eb1e96, 0x30fba3be, 0x72726f1b, 0x9d982876,
            0x5e1b39b4, 0x23ec2a6b
        ]
    );
}

#[test]
fn simd_salsa20_stress() {
    let input: [u32; 16] = [
        0x92537c06, 0x3209bf26, 0xde2fa104, 0xb9dfb67a, 0xd8001b4b, 0x59077a10, 0x936568a2,
        0x5f3615d5, 0xb08bfde1, 0x74178469, 0xcfb0294c, 0x6c9d22dd, 0x34635e5e, 0xdc5b755a,
        0x8fefbe92, 0xba82b0c4,
    ];
    let expected_output: [u32; 16] = [
        0xc7261208, 0x43d74c77, 0xa2907fad, 0xd9b0d467, 0x21e913c0, 0xa09ac59f, 0x41dbf380,
        0xe18788ab, 0x56440b7b, 0x9b1452ed, 0x5309bd85, 0x4ec274a7, 0xb9c37f7a, 0x5abcccb9,
        0xf8b709f5, 0x68f555e2,
    ];
    assert_eq!(
        (0..1_000_000).fold(input, |out, _| salsa20(out)),
        expected_output
    );
}

#[test]
fn test_vectors() {
    let mut cipher1 = XSalsa20::new(
        [
            1, 2, 3, 4, 5, 6, 7, 8, 9, 10, 11, 12, 13, 14, 15, 16, 201, 202, 203, 204, 205, 206,
            207, 208, 209, 210, 211, 212, 213, 214, 215, 216,
        ],
        [101, 102, 103, 104, 105, 106, 107, 108],
        0x74737271706f6e6d,
    );
    let received = cipher1.generate_block().unwrap();
    let received_slice = &received[..];
    let expected = &[
        69, 37, 68, 39, 41, 15, 107, 193, 255, 139, 122, 6, 170, 233, 217, 98, 89, 144, 182, 106,
        21, 51, 200, 65, 239, 49, 222, 34, 215, 114, 40, 126, 104, 197, 7, 225, 197, 153, 31, 2,
        102, 78, 76, 176, 84, 245, 246, 184, 177, 160, 133, 130, 6, 72, 149, 119, 192, 195, 132,
        236, 234, 103, 246, 74,
    ][..];
    assert_eq!(received_slice, expected);
}

#[test]
fn salsa20_block_deterministic() {
    let input: [u32; 16] = [
        0x730d9fd3, 0xb752374c, 0x25de7503, 0x88eabbbf, 0x30b3ed31, 0xdbb26a01, 0x30a6c7af,
        0xcfb31056, 0x3f20f01f, 0xa15d530f, 0x71309374, 0x24cc37ee, 0x4febc94f, 0x2f9c5103,
        0xf3f41acb, 0x36687658,
    ];
    assert_eq!(salsa20(input), salsa20(input));
}

#[test]
fn counter_exhaustion_fails() {
    let key = [1u8; 32];
    let nonce = [2u8; 8];
    let mut at_end = XSalsa20::new(key, nonce, u64::MAX);
    assert!(at_end.generate_block().is_none());
    let mut near_end = XSalsa20::new(key, nonce, u64::MAX - 1);
    // one full block still fits, a second does not
    assert!(near_end.generate(64).is_some());
    assert!(near_end.generate(1).is_none());
    let mut data = vec![0u8; 129];
    let mut short = XSalsa20::new(key, nonce, u64::MAX - 1);
    assert!(short.crypt(&mut data).is_none());
    assert_eq!(data, vec![0u8; 129]);
}

#[test]
fn crypt_matches_generated_keystream() {
    let key = [3u8; 32];
    let nonce = [4u8; 8];
    let mut gen = XSalsa20::new(key, nonce, 0);
    let ks = gen.generate(150).unwrap();
    let mut enc = XSalsa20::new(key, nonce, 0);
    let mut zeros = vec![0u8; 150];
    enc.crypt(&mut zeros).unwrap();
    assert_eq!(zeros, ks);
}
