use aes::cipher::{generic_array::GenericArray, BlockEncrypt, KeyInit};
use aes::Aes128;
use rand::Rng;
use rand_distr::{Distribution, Normal};
use tekton::imp::b128::Tekton128;
use tekton::imp::b256::Tekton256;
use tekton::imp::util::{
    avalanche, avalanche_over, differing_bits, tally, BlockEncryptor, Histogram,
};
use tekton::imp::{Flags, Mode, Permute, Rounds};

struct Reference(Aes128);

impl Reference {
    fn new(key: [u8; 16]) -> Reference {
        Reference(Aes128::new(&GenericArray::from(key)))
    }
}

impl Reference {
    fn encrypt(&self, block: &mut [u8; 16]) {
        let mut b = GenericArray::from(*block);
        self.0.encrypt_block(&mut b);
        *block = b.into();
    }
}

fn uniformness<const F: usize>(hist: &Histogram<F>) -> f64 {
    hist.deviation() as f64 / (hist.total() as f64 * F as f64)
}

fn uniformness_of<C: BlockEncryptor>(cipher: &C, payload: &[[u8; 16]]) -> f64 {
    let hist: Histogram<1000> = tally(cipher, payload);
    uniformness(&hist)
}

fn uniformness_a(cipher: &Reference, payload: &[[u8; 16]]) -> f64 {
    let mut hist = Histogram::<1000>::new();
    for p in payload {
        let mut block = *p;
        cipher.encrypt(&mut block);
        hist.update(block);
    }
    uniformness(&hist)
}

fn confusion_a(cipher: &Reference) -> f64 {
    let mut rng = rand::thread_rng();
    let _p: u128 = rng.gen();
    let p = _p.to_be_bytes();

    let mut conf: [f64; 128] = [0.0; 128];
    for i in 0..128 {
        let mut cleared = p.clone();
        cleared[i / 8] = cleared[i / 8] & !(1 << (i % 8));

        let mut enc_clear = cleared;
        cipher.encrypt(&mut enc_clear);

        let mut raised = p.clone();
        raised[i / 8] = raised[i / 8] | (1 << (i % 8));

        let mut enc_set = raised;
        cipher.encrypt(&mut enc_set);

        conf[i] = differing_bits(&enc_clear, &enc_set) as f64;
    }

    let conf: f64 = conf.into_iter().sum();
    return conf / 128.0;
}

fn confusion_of<C: BlockEncryptor>(cipher: &C) -> f64 {
    let mut plaintexts: Vec<[u8; 16]> = Vec::new();
    for _ in 0..100 {
        let mut rng = rand::thread_rng();
        let _p: u128 = rng.gen();
        plaintexts.push(_p.to_be_bytes());
    }
    avalanche_over(cipher, &plaintexts) as f64 / 128.0 / 100.0
}

fn flags(rounds: Rounds, mode: Mode, permute: Permute) -> Flags {
    Flags { rounds, mode, permute }
}

fn random_key_256() -> [u8; 32] {
    let lo_a: u128 = rand::thread_rng().gen();
    let hi_a: u128 = rand::thread_rng().gen();
    let mut a: [u8; 32] = [0; 32];
    a[..16].copy_from_slice(&lo_a.to_be_bytes());
    a[16..32].copy_from_slice(&hi_a.to_be_bytes());
    a
}

#[test]
fn information_theory_test_test_compare_statistics_128() {
    let key: u128 = rand::thread_rng().gen();

    let mut rng = rand::thread_rng();
    let normal = Normal::new(u128::MAX as f64, (u128::MAX as f64) / 100 as f64).unwrap();

    let mut payload: Vec<[u8; 16]> = vec![[0; 16]; 100_000];
    for i in 0..100_000 {
        let v: f64 = normal.sample(&mut rng);
        payload[i] = (v as u128).to_le_bytes();
    }

    let cipher = Reference::new(key.to_be_bytes());

    let tekton_bp = Tekton128::new(key.to_be_bytes(), flags(Rounds::FASTER, Mode::BYTE, Permute::ROTATE));
    let u = uniformness_of(&tekton_bp, &payload);
    println!("Tekton (128bit)(faster, byte) uniformness: {0:?}", u);
    assert!(0.0 <= u && u <= 2.0);

    let tekton_br = Tekton128::new(key.to_be_bytes(), flags(Rounds::SAFER, Mode::BYTE, Permute::ROTATE));
    let u = uniformness_of(&tekton_br, &payload);
    println!("Tekton (128bit)(safer, byte) uniformness: {0:?}", u);
    assert!(0.0 <= u && u <= 2.0);

    let tekton_ip = Tekton128::new(key.to_be_bytes(), flags(Rounds::FASTER, Mode::INT, Permute::ROTATE));
    let u = uniformness_of(&tekton_ip, &payload);
    println!("Tekton (128bit)(faster, int) uniformness: {0:?}", u);
    assert!(0.0 <= u && u <= 2.0);

    let tekton_ir = Tekton128::new(key.to_be_bytes(), flags(Rounds::SAFER, Mode::INT, Permute::ROTATE));
    let u = uniformness_of(&tekton_ir, &payload);
    println!("Tekton (128bit)(safer, int) uniformness: {0:?}", u);
    assert!(0.0 <= u && u <= 2.0);

    let u = uniformness_a(&cipher, &payload);
    println!("AES (128bit) uniformness: {0:?}", u);
    assert!(0.0 <= u && u <= 2.0);

    let tekton_bp = Tekton128::new(key.to_be_bytes(), flags(Rounds::SAFER, Mode::BYTE, Permute::PERMUTE));
    let u = uniformness_of(&tekton_bp, &payload);
    println!("Tekton (128bit)(perm, byte) uniformness: {0:?}", u);

    let tekton_ip = Tekton128::new(key.to_be_bytes(), flags(Rounds::SAFER, Mode::INT, Permute::PERMUTE));
    let u = uniformness_of(&tekton_ip, &payload);
    println!("Tekton (128bit)(perm, int) uniformness: {0:?}", u);

    let key_256 = random_key_256();

    let tekton_bp = Tekton256::new(key_256, flags(Rounds::SAFER, Mode::BYTE, Permute::PERMUTE));
    let u = uniformness_of(&tekton_bp, &payload);
    println!("Tekton (256bit)(perm, byte) uniformness: {0:?}", u);

    let tekton_br = Tekton256::new(key_256, flags(Rounds::SAFER, Mode::BYTE, Permute::ROTATE));
    let u = uniformness_of(&tekton_br, &payload);
    println!("Tekton (256bit)(rot, byte) uniformness: {0:?}", u);

    let tekton_ip = Tekton256::new(key_256, flags(Rounds::SAFER, Mode::INT, Permute::PERMUTE));
    let u = uniformness_of(&tekton_ip, &payload);
    println!("Tekton (256bit)(perm, int) unifomness: {0:?}", u);

    let tekton_ir = Tekton256::new(key_256, flags(Rounds::SAFER, Mode::INT, Permute::ROTATE));
    let u = uniformness_of(&tekton_ir, &payload);
    println!("Tekton (256bit)(rot, int) uniformness: {0:?}", u);

    println!("--------------");

    let tekton_bp = Tekton128::new(key.to_be_bytes(), flags(Rounds::FASTER, Mode::BYTE, Permute::ROTATE));
    let u = confusion_of(&tekton_bp);
    println!("Tekton (128bit)(faster, byte) confusion: {0:?}", u);
    assert!(0.0 < u && u < 128.0);

    let tekton_br = Tekton128::new(key.to_be_bytes(), flags(Rounds::SAFER, Mode::BYTE, Permute::ROTATE));
    let u = confusion_of(&tekton_br);
    println!("Tekton (128bit)(safer, byte) confusion: {0:?}", u);
    assert!(0.0 < u && u < 128.0);

    let tekton_ip = Tekton128::new(key.to_be_bytes(), flags(Rounds::FASTER, Mode::INT, Permute::ROTATE));
    let u = confusion_of(&tekton_ip);
    println!("Tekton (128bit)(faster, int) confusion: {0:?}", u);
    assert!(0.0 < u && u < 128.0);

    let tekton_ir = Tekton128::new(key.to_be_bytes(), flags(Rounds::SAFER, Mode::INT, Permute::ROTATE));
    let u = confusion_of(&tekton_ir);
    println!("Tekton (128bit)(safer, int) confusion: {0:?}", u);
    assert!(0.0 < u && u < 128.0);

    let u = confusion_a(&cipher);
    println!("AES (128bit) confusion: {0:?}", u);
    assert!(56.0 < u && u < 72.0);
}

#[test]
fn uniformity_on_uniform_plaintexts_is_close_to_the_reference() {
    let mut rng = rand::thread_rng();
    let key: u128 = rng.gen();
    let mut payload: Vec<[u8; 16]> = vec![[0; 16]; 100_000];
    for i in 0..100_000 {
        payload[i] = rng.gen::<u128>().to_be_bytes();
    }
    let reference = uniformness_a(&Reference::new(key.to_be_bytes()), &payload);
    assert!(reference > 0.0 && reference < 0.12);
    for rounds in [Rounds::FASTER, Rounds::SAFER] {
        for mode in [Mode::BYTE, Mode::INT] {
            for permute in [Permute::ROTATE, Permute::PERMUTE] {
                let cipher = Tekton128::new(key.to_be_bytes(), flags(rounds, mode, permute));
                let u = uniformness_of(&cipher, &payload);
                assert!(u > 0.0 && u < 0.12);
                assert!(u < 1.5 * reference && reference < 1.5 * u);
            }
        }
    }
}

#[test]
fn avalanche_of_bit_zero_is_about_half_the_block() {
    let key: [u8; 16] = [
        0x2b, 0x7e, 0x15, 0x16, 0x28, 0xae, 0xd2, 0xa6, 0xab, 0xf7, 0x15, 0x88, 0x09, 0xcf, 0x4f, 0x3c,
    ];
    let cipher = Tekton128::new(key, flags(Rounds::SAFER, Mode::BYTE, Permute::ROTATE));
    let mut rng = rand::thread_rng();
    let mut changed: u32 = 0;
    for _ in 0..100 {
        let plain: [u8; 16] = rng.gen::<u128>().to_be_bytes();
        let mut flipped = plain;
        flipped[0] ^= 1;
        let mut a = plain;
        cipher.encrypt(&mut a);
        let mut b = flipped;
        cipher.encrypt(&mut b);
        changed += differing_bits(&a, &b);
    }
    let average = changed as f64 / 100.0;
    assert!(average > 56.0 && average < 72.0);
}

#[test]
fn avalanche_totals_on_a_fixed_block() {
    let mut key = [0u8; 16];
    for i in 0..16 {
        key[i] = i as u8;
    }
    let block: [u8; 16] = [
        0x00, 0x11, 0x22, 0x33, 0x44, 0x55, 0x66, 0x77, 0x88, 0x99, 0xaa, 0xbb, 0xcc, 0xdd, 0xee, 0xff,
    ];
    let expected: [(Rounds, Mode, Permute, u32); 8] = [
        (Rounds::FASTER, Mode::BYTE, Permute::ROTATE, 7006),
        (Rounds::FASTER, Mode::BYTE, Permute::PERMUTE, 6508),
        (Rounds::FASTER, Mode::INT, Permute::ROTATE, 1773),
        (Rounds::FASTER, Mode::INT, Permute::PERMUTE, 1030),
        (Rounds::SAFER, Mode::BYTE, Permute::ROTATE, 8130),
        (Rounds::SAFER, Mode::BYTE, Permute::PERMUTE, 8163),
        (Rounds::SAFER, Mode::INT, Permute::ROTATE, 2042),
        (Rounds::SAFER, Mode::INT, Permute::PERMUTE, 1033),
    ];
    for (rounds, mode, permute, total) in expected {
        let cipher = Tekton128::new(key, flags(rounds, mode, permute));
        assert_eq!(avalanche(&cipher, block), total);
    }
}

#[test]
fn differing_bits_of_blocks() {
    let zero = [0u8; 16];
    let ones = [0xFFu8; 16];
    assert_eq!(differing_bits(&zero, &zero), 0);
    assert_eq!(differing_bits(&zero, &ones), 128);
    let mut one = zero;
    one[15] = 1;
    assert_eq!(differing_bits(&zero, &one), 1);
}

#[test]
fn tally_counts_every_ciphertext() {
    let mut key = [0u8; 16];
    for i in 0..16 {
        key[i] = i as u8;
    }
    let cipher = Tekton128::new(key, flags(Rounds::SAFER, Mode::BYTE, Permute::ROTATE));
    let block: [u8; 16] = [
        0x00, 0x11, 0x22, 0x33, 0x44, 0x55, 0x66, 0x77, 0x88, 0x99, 0xaa, 0xbb, 0xcc, 0xdd, 0xee, 0xff,
    ];
    // the ciphertext of `block` starts with 39, the one of its decryption is `block` itself
    let mut back = block;
    cipher.decrypt(&mut back);
    let hist: Histogram<256> = tally(&cipher, &[block, back, block]);
    let mut expected = vec![0u32; 256];
    expected[39] = 2;
    expected[0] = 1;
    assert_eq!(hist.bins(), &expected);
    assert_eq!(hist.total(), 3);

    let none: Histogram<4> = tally(&cipher, &[]);
    assert_eq!(none.bins(), &vec![0, 0, 0, 0]);
}

#[test]
fn avalanche_over_sums_the_probe() {
    let mut key = [0u8; 16];
    for i in 0..16 {
        key[i] = i as u8;
    }
    let cipher = Tekton128::new(key, flags(Rounds::SAFER, Mode::BYTE, Permute::ROTATE));
    let block: [u8; 16] = [
        0x00, 0x11, 0x22, 0x33, 0x44, 0x55, 0x66, 0x77, 0x88, 0x99, 0xaa, 0xbb, 0xcc, 0xdd, 0xee, 0xff,
    ];
    assert_eq!(avalanche_over(&cipher, &[]), 0);
    assert_eq!(avalanche_over(&cipher, &[block]), 8130);
    assert_eq!(avalanche_over(&cipher, &[block, block]), 16260);
    let other = [0x5au8; 16];
    assert_eq!(
        avalanche_over(&cipher, &[block, other]),
        8130 + avalanche(&cipher, other) as u64
    );
}
