use rand::Rng;
use tekton::imp::b128::Tekton128;
use tekton::imp::b256::Tekton256;
use tekton::imp::schedule::{derive_128, derive_256, expand_key_byte};
use tekton::imp::Mode::{BYTE, INT};
use tekton::imp::Permute::{PERMUTE, ROTATE};
use tekton::imp::Rounds::{FASTER, SAFER};
use tekton::imp::{Flags, Mode, Permute, Rounds};

const BLOCK: [u8; 16] = [
    0x00, 0x11, 0x22, 0x33, 0x44, 0x55, 0x66, 0x77, 0x88, 0x99, 0xaa, 0xbb, 0xcc, 0xdd, 0xee, 0xff,
];

fn key_128() -> [u8; 16] {
    let mut key = [0u8; 16];
    for i in 0..16 {
        key[i] = i as u8;
    }
    key
}

fn key_256() -> [u8; 32] {
    let mut key = [0u8; 32];
    for i in 0..32 {
        key[i] = i as u8;
    }
    key
}

fn all_flags() -> Vec<Flags> {
    let mut out = Vec::new();
    for rounds in [Rounds::FASTER, Rounds::SAFER] {
        for mode in [Mode::BYTE, Mode::INT] {
            for permute in [Permute::ROTATE, Permute::PERMUTE] {
                out.push(Flags { rounds, mode, permute });
            }
        }
    }
    out
}

fn random_key_256() -> [u8; 32] {
    let lo_key: u128 = rand::thread_rng().gen();
    let hi_key: u128 = rand::thread_rng().gen();
    let mut key: [u8; 32] = [0; 32];
    key[..16].copy_from_slice(&lo_key.to_be_bytes());
    key[16..32].copy_from_slice(&hi_key.to_be_bytes());
    key
}

#[test]
fn b128_test_encrypt_decrypt() {
    let key: u128 = rand::thread_rng().gen();

    let test_in_loop = |tekton: Tekton128| {
        for _ in 0..1000 {
            let p: u128 = rand::thread_rng().gen();
            let pb = p.to_be_bytes();

            let mut enc = pb.clone();
            tekton.encrypt(&mut enc);

            let mut dec = enc.clone();
            tekton.decrypt(&mut dec);

            assert_eq!(dec, pb);
            assert_ne!(enc, pb);
        }
    };

    for flags in all_flags() {
        test_in_loop(Tekton128::new(key.to_be_bytes(), flags));
    }
}

#[test]
fn b256_test_encrypt_decrypt() {
    let key = random_key_256();

    let test_in_loop = |tekton: Tekton256| {
        for _ in 0..1000 {
            let p: u128 = rand::thread_rng().gen();
            let pb: [u8; 16] = p.to_be_bytes();

            let mut enc = pb.clone();
            tekton.encrypt(&mut enc);

            let mut dec = enc.clone();
            tekton.decrypt(&mut dec);

            assert_eq!(dec, pb);
            assert_ne!(enc, pb);
        }
    };

    for flags in all_flags() {
        test_in_loop(Tekton256::new(key, flags));
    }
}

#[test]
fn lib_test_encrypt_decrypt() {
    let key: u128 = rand::thread_rng().gen();

    let tekton = Tekton128::new(
        key.to_be_bytes(),
        Flags { rounds: Rounds::SAFER, mode: Mode::BYTE, permute: Permute::ROTATE },
    );

    for _ in 0..1000 {
        let p: u128 = rand::thread_rng().gen();
        let pb = p.to_be_bytes();

        let mut enc = pb.clone();
        tekton.encrypt(&mut enc);

        let mut dec = enc.clone();
        tekton.decrypt(&mut dec);

        assert_eq!(dec, pb);
        assert_ne!(enc, pb);
    }
}

#[test]
fn round_trip_over_ten_thousand_random_blocks_per_configuration() {
    let mut rng = rand::thread_rng();
    for flags in all_flags() {
        let small = Tekton128::new(rng.gen::<u128>().to_be_bytes(), flags);
        let large = Tekton256::new(random_key_256(), flags);
        let mut unchanged = 0;
        for _ in 0..10_000 {
            let pb: [u8; 16] = rng.gen::<u128>().to_be_bytes();

            let mut enc = pb;
            small.encrypt(&mut enc);
            if enc == pb {
                unchanged += 1;
            }
            let mut dec = enc;
            small.decrypt(&mut dec);
            assert_eq!(dec, pb);

            let mut enc = pb;
            large.encrypt(&mut enc);
            if enc == pb {
                unchanged += 1;
            }
            let mut dec = enc;
            large.decrypt(&mut dec);
            assert_eq!(dec, pb);
        }
        assert!(unchanged <= 1);
    }
}

#[test]
fn encrypt_undoes_decrypt() {
    let mut rng = rand::thread_rng();
    for flags in all_flags() {
        let small = Tekton128::new(rng.gen::<u128>().to_be_bytes(), flags);
        let large = Tekton256::new(random_key_256(), flags);
        for _ in 0..200 {
            let cb: [u8; 16] = rng.gen::<u128>().to_be_bytes();
            let mut block = cb;
            small.decrypt(&mut block);
            small.encrypt(&mut block);
            assert_eq!(block, cb);
            let mut block = cb;
            large.decrypt(&mut block);
            large.encrypt(&mut block);
            assert_eq!(block, cb);
        }
    }
}

#[test]
fn same_key_and_configuration_give_same_ciphertext() {
    let mut rng = rand::thread_rng();
    for flags in all_flags() {
        let key: [u8; 16] = rng.gen::<u128>().to_be_bytes();
        let first = Tekton128::new(key, flags);
        let second = Tekton128::new(key, flags);
        let wide_key = random_key_256();
        let third = Tekton256::new(wide_key, flags);
        let fourth = Tekton256::new(wide_key, flags);
        for _ in 0..100 {
            let pb: [u8; 16] = rng.gen::<u128>().to_be_bytes();
            let mut a = pb;
            first.encrypt(&mut a);
            let mut b = pb;
            second.encrypt(&mut b);
            assert_eq!(a, b);
            let mut c = pb;
            third.encrypt(&mut c);
            let mut d = pb;
            fourth.encrypt(&mut d);
            assert_eq!(c, d);
        }
    }
}

fn expect_128(rounds: Rounds, mode: Mode, permute: Permute, expected: [u8; 16]) {
    let cipher = Tekton128::new(key_128(), Flags { rounds, mode, permute });
    let mut block = BLOCK;
    cipher.encrypt(&mut block);
    assert_eq!(block, expected);
    cipher.decrypt(&mut block);
    assert_eq!(block, BLOCK);
}

fn expect_256(rounds: Rounds, mode: Mode, permute: Permute, expected: [u8; 16]) {
    let cipher = Tekton256::new(key_256(), Flags { rounds, mode, permute });
    let mut block = BLOCK;
    cipher.encrypt(&mut block);
    assert_eq!(block, expected);
    cipher.decrypt(&mut block);
    assert_eq!(block, BLOCK);
}

#[test]
fn known_ciphertexts_128() {
    expect_128(FASTER, BYTE, ROTATE, [121, 25, 46, 54, 221, 181, 1, 16, 121, 251, 115, 45, 234, 219, 85, 180]);
    expect_128(FASTER, BYTE, PERMUTE, [33, 148, 104, 65, 109, 165, 12, 69, 39, 151, 201, 35, 36, 163, 79, 25]);
    expect_128(FASTER, INT, ROTATE, [111, 77, 150, 248, 207, 110, 92, 2, 23, 95, 30, 92, 12, 166, 3, 62]);
    expect_128(FASTER, INT, PERMUTE, [136, 63, 116, 110, 128, 189, 253, 33, 220, 152, 66, 117, 212, 38, 236, 105]);
    expect_128(SAFER, BYTE, ROTATE, [39, 11, 182, 97, 152, 10, 161, 49, 14, 218, 129, 212, 26, 114, 142, 126]);
    expect_128(SAFER, BYTE, PERMUTE, [255, 0, 16, 235, 141, 149, 51, 127, 127, 177, 254, 1, 88, 46, 177, 155]);
    expect_128(SAFER, INT, ROTATE, [85, 189, 159, 133, 214, 44, 147, 100, 142, 247, 87, 215, 156, 196, 187, 169]);
    expect_128(SAFER, INT, PERMUTE, [128, 118, 181, 254, 136, 30, 109, 41, 0, 122, 15, 143, 8, 82, 77, 34]);
}

#[test]
fn known_ciphertexts_256() {
    expect_256(FASTER, BYTE, ROTATE, [177, 25, 213, 59, 220, 250, 102, 64, 146, 120, 54, 40, 89, 106, 55, 152]);
    expect_256(FASTER, BYTE, PERMUTE, [101, 11, 66, 82, 219, 125, 244, 96, 84, 147, 174, 81, 222, 189, 180, 55]);
    expect_256(FASTER, INT, ROTATE, [86, 202, 116, 232, 121, 134, 106, 219, 183, 238, 250, 132, 41, 0, 243, 69]);
    expect_256(FASTER, INT, PERMUTE, [12, 19, 180, 224, 72, 61, 134, 53, 132, 167, 35, 4, 192, 209, 245, 88]);
    expect_256(SAFER, BYTE, ROTATE, [237, 8, 254, 136, 243, 142, 248, 188, 66, 78, 77, 26, 214, 105, 96, 131]);
    expect_256(SAFER, BYTE, PERMUTE, [225, 143, 147, 224, 226, 145, 25, 134, 123, 97, 68, 104, 107, 158, 13, 13]);
    expect_256(SAFER, INT, ROTATE, [0, 133, 106, 190, 89, 97, 169, 69, 169, 105, 134, 193, 136, 224, 196, 88]);
    expect_256(SAFER, INT, PERMUTE, [240, 201, 127, 233, 180, 229, 249, 45, 120, 65, 105, 22, 60, 157, 85, 29]);
}

#[test]
fn faster_profile_differs_from_safer_profile() {
    let faster = Tekton128::new(
        key_128(),
        Flags { rounds: Rounds::FASTER, mode: Mode::BYTE, permute: Permute::ROTATE },
    );
    let safer = Tekton128::new(
        key_128(),
        Flags { rounds: Rounds::SAFER, mode: Mode::BYTE, permute: Permute::ROTATE },
    );
    let mut a = BLOCK;
    faster.encrypt(&mut a);
    let mut b = BLOCK;
    safer.encrypt(&mut b);
    assert_ne!(a, b);
}

#[test]
fn key_schedule_128_values() {
    let keys = derive_128(&key_128());
    assert_eq!(keys[0], [0, 113, 226, 83, 196, 53, 166, 23, 136, 249, 106, 219, 76, 189, 46, 159]);
    assert_eq!(keys[1], [0, 226, 196, 166, 136, 106, 76, 46, 16, 242, 212, 182, 152, 122, 92, 62]);
    assert_eq!(keys[2], [0, 196, 136, 76, 16, 212, 152, 92, 32, 228, 168, 108, 48, 244, 184, 124]);
    assert_eq!(keys[3], [0, 136, 16, 152, 32, 168, 48, 184, 64, 200, 80, 216, 96, 232, 112, 248]);
    assert_eq!(keys[4], [0, 16, 32, 48, 64, 80, 96, 112, 128, 144, 160, 176, 192, 208, 224, 240]);
}

#[test]
fn key_schedule_256_folds_the_halves() {
    let keys = derive_256(&key_256());
    assert_eq!(keys[0], [16, 240, 16, 48, 16, 112, 16, 48, 16, 240, 16, 48, 16, 112, 16, 48]);
    assert_eq!(keys[1], [32, 224, 32, 96, 32, 224, 32, 96, 32, 224, 32, 96, 32, 224, 32, 96]);
    assert_eq!(keys[2], [64, 192, 64, 192, 64, 192, 64, 192, 64, 192, 64, 192, 64, 192, 64, 192]);
    assert_eq!(keys[3], [128; 16]);
    for round in 4..8 {
        assert_eq!(keys[round], [0; 16]);
    }
}

#[test]
fn key_byte_formula() {
    assert_eq!(expand_key_byte(1, 0), 113);
    assert_eq!(expand_key_byte(1, 1), 226);
    assert_eq!(expand_key_byte(3, 0), 83);
    assert_eq!(expand_key_byte(0x80, 1), 0);
    assert_eq!(expand_key_byte(0xFF, 7), 0x80);
    for k in 0..=255u8 {
        assert_eq!(expand_key_byte(k, 0).wrapping_mul(145), k);
    }
}
