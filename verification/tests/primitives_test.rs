use rand::Rng;
use tekton::imp::lanes::{
    and_b, and_i, from_wide, from_words, mul_b, mul_i, mul_wide, not_b, not_i, or_i, rotate_left_b,
    rotate_left_i, rotate_right_b, rotate_right_i, shl_b, shl_i, shr_b, shr_i, splat_b, splat_i,
    swizzle_b, swizzle_i, to_wide, to_words, xor_b, xor_i,
};
use tekton::imp::primitives::{
    decrypt_round, decrypt_round_b, decrypt_round_i, diffusion, diffusion_b, diffusion_i,
    encrypt_round, encrypt_round_b, encrypt_round_i,
    expansion_b, inv_expansion_b, inverse_permute_b, inverse_permute_i, inverse_rotate_b,
    inverse_rotate_i, inverse_substitute_b, inverse_substitute_i, permute_b, permute_i, rotate_b,
    rotate_i, substitute_b, substitute_i, E, INV_E, INV_P, INV_PI, INV_S, INV_SI, P, PI, S, SI,
};
use tekton::imp::{Flags, Mode, Permute, Rounds};

const BLOCK: [u8; 16] = [
    0x00, 0x11, 0x22, 0x33, 0x44, 0x55, 0x66, 0x77, 0x88, 0x99, 0xaa, 0xbb, 0xcc, 0xdd, 0xee, 0xff,
];

const WORDS: [u32; 4] = [857870592, 2003195204, 3148519816, 4293844428];

fn key() -> [u8; 16] {
    let mut key = [0u8; 16];
    for i in 0..16 {
        key[i] = i as u8;
    }
    key
}

fn flags(permute: Permute) -> Flags {
    Flags { rounds: Rounds::SAFER, mode: Mode::BYTE, permute }
}

fn random_block() -> [u8; 16] {
    rand::thread_rng().gen::<u128>().to_be_bytes()
}

fn random_words() -> [u32; 4] {
    let mut rng = rand::thread_rng();
    [rng.gen(), rng.gen(), rng.gen(), rng.gen()]
}

#[test]
fn substitution_inverts_on_all_256_byte_values() {
    for x in 0..=255u8 {
        let s = substitute_b([x; 16]);
        assert_eq!(s, [x.wrapping_mul(191); 16]);
        assert_eq!(inverse_substitute_b(s), [x; 16]);
        assert_eq!(substitute_b(inverse_substitute_b([x; 16])), [x; 16]);
    }
}

#[test]
fn substitution_inverts_on_random_words() {
    let mut rng = rand::thread_rng();
    for _ in 0..10_000 {
        let x: u32 = rng.gen();
        assert_eq!(x.wrapping_mul(SI).wrapping_mul(INV_SI), x);
        let a = random_words();
        assert_eq!(inverse_substitute_i(substitute_i(a)), a);
        assert_eq!(substitute_i(inverse_substitute_i(a)), a);
    }
    assert_eq!(substitute_i([1, 2, 0, u32::MAX]), [1347249345, 2694498690, 0, 2947717951]);
}

#[test]
fn multipliers_are_odd_and_not_trivial() {
    assert_eq!(S % 2, 1);
    assert_eq!(SI % 2, 1);
    assert_eq!(E % 2, 1);
    assert!(S != 1 && S != 255);
    assert!(SI != 1 && SI != u32::MAX);
    assert!(E != 1 && E != u64::MAX);
    assert_eq!(S.wrapping_mul(INV_S), 1);
    assert_eq!(SI.wrapping_mul(INV_SI), 1);
    assert_eq!(E.wrapping_mul(INV_E), 1);
    assert_eq!((S, INV_S), (191, 63));
    assert_eq!((SI, INV_SI), (1_347_249_345, 112_012_097));
    assert_eq!((E, INV_E), (0x7FBF_7FBF_7FBF_7FBF, 2_218_482_843_833_888_831));
}

#[test]
fn tables_and_their_inverses() {
    for i in 0..16 {
        assert_eq!(INV_P[P[i]], i);
        assert_eq!(P[INV_P[i]], i);
    }
    for i in 0..4 {
        assert_eq!(INV_PI[PI[i]], i);
        assert_eq!(PI[INV_PI[i]], i);
    }
}

#[test]
fn permutation_restores_every_lane_arrangement() {
    let mut lanes = [0u8; 16];
    for i in 0..16 {
        lanes[i] = i as u8;
    }
    let permuted = permute_b(lanes);
    for i in 0..16 {
        assert_eq!(permuted[i] as usize, P[i]);
    }
    assert_eq!(inverse_permute_b(permuted), lanes);
    assert_eq!(permute_b(inverse_permute_b(lanes)), lanes);
    assert_eq!(permute_i([10, 11, 12, 13]), [11, 13, 10, 12]);
    assert_eq!(inverse_permute_i([11, 13, 10, 12]), [10, 11, 12, 13]);
    for _ in 0..1000 {
        let a = random_block();
        assert_eq!(inverse_permute_b(permute_b(a)), a);
        assert_eq!(permute_b(inverse_permute_b(a)), a);
        let w = random_words();
        assert_eq!(inverse_permute_i(permute_i(w)), w);
        assert_eq!(permute_i(inverse_permute_i(w)), w);
    }
}

#[test]
fn permutation_values() {
    assert_eq!(
        permute_b(BLOCK),
        [85, 102, 119, 68, 153, 170, 187, 136, 221, 238, 255, 204, 17, 34, 51, 0]
    );
    assert_eq!(
        inverse_permute_b(BLOCK),
        [255, 204, 221, 238, 51, 0, 17, 34, 119, 68, 85, 102, 187, 136, 153, 170]
    );
    assert_eq!(permute_i(WORDS), [2003195204, 4293844428, 857870592, 3148519816]);
    assert_eq!(inverse_permute_i(WORDS), [3148519816, 857870592, 4293844428, 2003195204]);
}

#[test]
fn rotation_values() {
    assert_eq!(
        rotate_b(BLOCK),
        [119, 136, 153, 170, 187, 204, 221, 238, 255, 0, 17, 34, 51, 68, 85, 102]
    );
    assert_eq!(
        inverse_rotate_b(BLOCK),
        [153, 170, 187, 204, 221, 238, 255, 0, 17, 34, 51, 68, 85, 102, 119, 136]
    );
    assert_eq!(rotate_i(WORDS), [1148675669, 2294000281, 3439324893, 3351057]);
    assert_eq!(inverse_rotate_i(WORDS), [4007513343, 571539507, 1716864119, 2862188731]);
}

#[test]
fn rotation_inverts() {
    for _ in 0..1000 {
        let a = random_block();
        assert_eq!(inverse_rotate_b(rotate_b(a)), a);
        assert_eq!(rotate_b(inverse_rotate_b(a)), a);
        let w = random_words();
        assert_eq!(inverse_rotate_i(rotate_i(w)), w);
        assert_eq!(rotate_i(inverse_rotate_i(w)), w);
    }
}

#[test]
fn expansion_values() {
    assert_eq!(
        expansion_b(BLOCK),
        [0, 175, 217, 187, 25, 47, 192, 8, 120, 4, 235, 170, 196, 183, 4, 43]
    );
    assert_eq!(
        inv_expansion_b(BLOCK),
        [0, 47, 210, 192, 150, 24, 99, 17, 120, 72, 71, 112, 165, 108, 213, 222]
    );
}

#[test]
fn expansion_inverts_on_random_states() {
    for _ in 0..10_000 {
        let a = random_block();
        assert_eq!(expansion_b(inv_expansion_b(a)), a);
        assert_eq!(inv_expansion_b(expansion_b(a)), a);
    }
}

#[test]
fn masked_diffusion_values() {
    assert_eq!(
        diffusion_b(BLOCK, false),
        [255, 152, 117, 33, 115, 65, 159, 158, 247, 9, 215, 26, 183, 28, 241, 105]
    );
    assert_eq!(
        diffusion_b(BLOCK, true),
        [0, 16, 49, 18, 81, 20, 6, 112, 230, 111, 125, 199, 123, 167, 134, 105]
    );
    assert_eq!(diffusion_i(WORDS, false), [306621388, 2913759808, 702823108, 1522675588]);
    assert_eq!(diffusion_i(WORDS, true), [553788211, 1127556962, 4098776277, 1521849416]);
}

#[test]
fn masked_diffusion_is_its_own_inverse_in_each_direction() {
    for _ in 0..10_000 {
        let a = random_block();
        assert_eq!(diffusion_b(diffusion_b(a, false), false), a);
        assert_eq!(diffusion_b(diffusion_b(a, true), true), a);
        let w = random_words();
        assert_eq!(diffusion_i(diffusion_i(w, false), false), w);
        assert_eq!(diffusion_i(diffusion_i(w, true), true), w);
    }
}

#[test]
fn masked_diffusion_directions_do_not_undo_each_other() {
    let mut x = [0u8; 16];
    x[0] = 1;
    assert_eq!(
        diffusion_b(diffusion_b(x, true), false),
        [23, 23, 23, 0, 23, 0, 0, 0, 23, 0, 0, 0, 0, 0, 0, 0]
    );
    assert_eq!(
        diffusion_b(diffusion_b(x, false), true),
        [22, 23, 23, 0, 23, 0, 0, 0, 23, 0, 0, 0, 0, 0, 0, 0]
    );
    let zero = [0u8; 16];
    assert_eq!(diffusion_b(diffusion_b(zero, true), false), zero);
}

#[test]
fn round_values() {
    assert_eq!(
        encrypt_round_b(BLOCK, key(), &flags(Permute::ROTATE)),
        [41, 128, 241, 69, 194, 34, 106, 214, 107, 0, 16, 101, 129, 161, 201, 245]
    );
    assert_eq!(
        encrypt_round_b(BLOCK, key(), &flags(Permute::PERMUTE)),
        [201, 245, 41, 161, 241, 69, 194, 128, 106, 214, 107, 34, 16, 101, 129, 0]
    );
    assert_eq!(
        encrypt_round_i(WORDS, key(), &flags(Permute::ROTATE)),
        [1081816448, 2153250544, 3224684640, 10382352]
    );
    assert_eq!(
        encrypt_round_i(WORDS, key(), &flags(Permute::PERMUTE)),
        [2067103808, 885547200, 2657882112, 1476325504]
    );
}

#[test]
fn reverse_round_undoes_forward_round() {
    for permute in [Permute::ROTATE, Permute::PERMUTE] {
        let f = flags(permute);
        for _ in 0..2000 {
            let s = random_block();
            let k = random_block();
            assert_eq!(decrypt_round_b(encrypt_round_b(s, k, &f), k, &f), s);
            assert_eq!(encrypt_round_b(decrypt_round_b(s, k, &f), k, &f), s);
            let w = random_words();
            assert_eq!(decrypt_round_i(encrypt_round_i(w, k, &f), k, &f), w);
            assert_eq!(encrypt_round_i(decrypt_round_i(w, k, &f), k, &f), w);
        }
    }
}

#[test]
fn packing_is_little_endian() {
    assert_eq!(to_words(BLOCK), WORDS);
    assert_eq!(from_words(WORDS), BLOCK);
    assert_eq!(to_wide(BLOCK), [8603657889541918976, 18441921395520346504]);
    assert_eq!(from_wide([8603657889541918976, 18441921395520346504]), BLOCK);
    let mut one = [0u8; 16];
    one[0] = 1;
    one[7] = 2;
    assert_eq!(to_words(one), [1, 0x0200_0000, 0, 0]);
    assert_eq!(to_wide(one), [0x0200_0000_0000_0001, 0]);
    for _ in 0..1000 {
        let a = random_block();
        assert_eq!(from_words(to_words(a)), a);
        assert_eq!(from_wide(to_wide(a)), a);
        assert_eq!(to_words(a)[1], u32::from_le_bytes([a[4], a[5], a[6], a[7]]));
        assert_eq!(to_wide(a)[1], u64::from_le_bytes([a[8], a[9], a[10], a[11], a[12], a[13], a[14], a[15]]));
    }
}

#[test]
fn lane_operators_on_bytes() {
    let mut ramp = [0u8; 16];
    for i in 0..16 {
        ramp[i] = i as u8;
    }
    assert_eq!(splat_b(7), [7; 16]);
    assert_eq!(xor_b(ramp, splat_b(0xFF))[3], 0xFC);
    assert_eq!(and_b(ramp, splat_b(0x01))[3], 1);
    assert_eq!(not_b(ramp)[1], 0xFE);
    assert_eq!(shl_b(splat_b(0x81), 1), [0x02; 16]);
    assert_eq!(shr_b(splat_b(0x81), 1), [0x40; 16]);
    assert_eq!(mul_b(splat_b(3), 191), [61; 16]);
    assert_eq!(rotate_left_b(ramp, 1)[0], 1);
    assert_eq!(rotate_left_b(ramp, 1)[15], 0);
    assert_eq!(rotate_right_b(ramp, 1)[0], 15);
    assert_eq!(rotate_left_b(ramp, 0), ramp);
    assert_eq!(rotate_right_b(rotate_left_b(ramp, 15), 15), ramp);
    let mut reversed = [0usize; 16];
    for i in 0..16 {
        reversed[i] = 15 - i;
    }
    assert_eq!(swizzle_b(ramp, &reversed)[0], 15);
    assert_eq!(swizzle_b(ramp, &reversed)[15], 0);
}

#[test]
fn lane_operators_on_words() {
    let ramp: [u32; 4] = [10, 11, 12, 13];
    assert_eq!(splat_i(7), [7; 4]);
    assert_eq!(xor_i(ramp, splat_i(u32::MAX)), [!10, !11, !12, !13]);
    assert_eq!(and_i(ramp, splat_i(1)), [0, 1, 0, 1]);
    assert_eq!(or_i(ramp, splat_i(1)), [11, 11, 13, 13]);
    assert_eq!(not_i(ramp), [!10, !11, !12, !13]);
    assert_eq!(shl_i(splat_i(0x8000_0001), 1), [2; 4]);
    assert_eq!(shr_i(splat_i(0x8000_0001), 1), [0x4000_0000; 4]);
    assert_eq!(mul_i(splat_i(2), 0x8000_0001), [2; 4]);
    assert_eq!(mul_wide([2, 3], 0x8000_0000_0000_0001), [2, 0x8000_0000_0000_0003]);
    assert_eq!(rotate_left_i(ramp, 1), [11, 12, 13, 10]);
    assert_eq!(rotate_right_i(ramp, 1), [13, 10, 11, 12]);
    assert_eq!(swizzle_i(ramp, &[3, 2, 1, 0]), [13, 12, 11, 10]);
}

fn flags_in(mode: Mode, permute: Permute) -> Flags {
    Flags { rounds: Rounds::SAFER, mode, permute }
}

#[test]
fn rotating_diffusion_values() {
    assert_eq!(
        diffusion(BLOCK),
        [118, 185, 252, 251, 250, 53, 112, 247, 126, 177, 244, 243, 242, 61, 120, 255]
    );
    let mut last = [0u8; 16];
    last[0] = 0x01;
    // lane 15 takes in lane 0, its upper neighbour in the cycle
    let out = diffusion(last);
    assert_eq!(out[15], 0x02 ^ 0x04 ^ 0x10);
    assert_eq!(out[0], 0x01);
}

#[test]
fn rotating_diffusion_is_its_own_inverse() {
    for _ in 0..10_000 {
        let a = random_block();
        assert_eq!(diffusion(diffusion(a)), a);
    }
}

#[test]
fn block_round_values() {
    assert_eq!(
        encrypt_round(BLOCK, key(), &flags_in(Mode::BYTE, Permute::ROTATE)),
        [41, 128, 241, 69, 194, 34, 106, 214, 107, 0, 16, 101, 129, 161, 201, 245]
    );
    assert_eq!(
        encrypt_round(BLOCK, key(), &flags_in(Mode::INT, Permute::ROTATE)),
        [128, 53, 123, 64, 240, 254, 87, 128, 96, 200, 52, 192, 16, 108, 158, 0]
    );
    assert_eq!(
        encrypt_round(BLOCK, key(), &flags_in(Mode::INT, Permute::PERMUTE)),
        [64, 128, 53, 123, 192, 96, 200, 52, 0, 16, 108, 158, 128, 240, 254, 87]
    );
    assert_eq!(
        decrypt_round(BLOCK, key(), &flags_in(Mode::INT, Permute::ROTATE)),
        [191, 224, 16, 105, 247, 152, 214, 210, 63, 86, 155, 87, 119, 45, 92, 236]
    );
    assert_eq!(
        decrypt_round(BLOCK, key(), &flags_in(Mode::BYTE, Permute::PERMUTE)),
        [127, 106, 128, 244, 92, 50, 187, 137, 255, 76, 141, 169, 205, 142, 211, 100]
    );
}

#[test]
fn block_round_inverts_for_every_configuration() {
    for mode in [Mode::BYTE, Mode::INT] {
        for permute in [Permute::ROTATE, Permute::PERMUTE] {
            let f = flags_in(mode, permute);
            for _ in 0..2000 {
                let s = random_block();
                let k = random_block();
                assert_eq!(decrypt_round(encrypt_round(s, k, &f), k, &f), s);
                assert_eq!(encrypt_round(decrypt_round(s, k, &f), k, &f), s);
            }
        }
    }
}
