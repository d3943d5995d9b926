use rand_ctr_drbg::drbg::{Cipher, CtrDrbg, DrbgError};

fn zero_drbg(cipher: Cipher, seed: usize) -> CtrDrbg {
    let entropy = vec![0u8; seed];
    let pers = vec![0u8; seed];
    CtrDrbg::new(cipher, &entropy, &pers).unwrap()
}

#[test]
fn test() {
    let mut ctr_drbg = zero_drbg(Cipher::Aes128, 32);

    assert_eq!(ctr_drbg.next_u32() as i32, -752546092);
    assert_eq!(ctr_drbg.next_u32() as i32, -1324191812);
    assert_eq!((ctr_drbg.next_u32() as i32) < 0, false);
    assert_eq!((ctr_drbg.next_u32() as i32) < 0, true);
}

#[test]
fn same_seed_gives_same_stream() {
    let entropy: Vec<u8> = (0..40u8).collect();
    let pers: Vec<u8> = (100..140u8).collect();
    let mut a = CtrDrbg::new(Cipher::Aes192, &entropy, &pers).unwrap();
    let mut b = CtrDrbg::new(Cipher::Aes192, &entropy, &pers).unwrap();
    let add = vec![7u8; 40];
    for len in [1usize, 16, 33, 64] {
        let mut x = vec![0u8; len];
        let mut y = vec![0u8; len];
        a.fill_bytes(&mut x);
        b.fill_bytes(&mut y);
        assert_eq!(x, y);
        a.fill_bytes_with_additional(&mut x, &add).unwrap();
        b.fill_bytes_with_additional(&mut y, &add).unwrap();
        assert_eq!(x, y);
    }
}

#[test]
fn short_request_is_prefix_of_rounded_request() {
    for n in [1usize, 5, 15, 17, 31, 47] {
        let mut a = zero_drbg(Cipher::Aes256, 48);
        let mut b = zero_drbg(Cipher::Aes256, 48);
        let mut short = vec![0u8; n];
        let mut full = vec![0u8; (n + 15) / 16 * 16];
        a.fill_bytes(&mut short);
        b.fill_bytes(&mut full);
        assert_eq!(short.len(), n);
        assert_eq!(short[..], full[..n]);
        // the states after both requests agree
        assert_eq!(a.next_u64(), b.next_u64());
    }
}

#[test]
fn additional_input_changes_output() {
    let mut a = zero_drbg(Cipher::Aes128, 32);
    let mut b = zero_drbg(Cipher::Aes128, 32);
    let mut x = vec![0u8; 32];
    let mut y = vec![0u8; 32];
    let mut add = vec![0u8; 32];
    add[31] = 1;
    a.fill_bytes(&mut x);
    b.fill_bytes_with_additional(&mut y, &add).unwrap();
    assert_ne!(x, y);
}

#[test]
fn zero_additional_input_differs_only_by_extra_update() {
    // with an all-zero additional input the first rekey still happens
    let mut a = zero_drbg(Cipher::Aes128, 32);
    let mut b = zero_drbg(Cipher::Aes128, 32);
    let mut x = vec![0u8; 16];
    let mut y = vec![0u8; 16];
    a.fill_bytes(&mut x);
    b.fill_bytes_with_additional(&mut y, &vec![0u8; 32]).unwrap();
    assert_ne!(x, y);
}

#[test]
fn seed_length_is_checked() {
    assert_eq!(CtrDrbg::new(Cipher::Aes128, &vec![0u8; 31], &vec![0u8; 32]).err(), Some(DrbgError::InvalidSeedLength));
    assert_eq!(CtrDrbg::new(Cipher::Aes256, &vec![0u8; 48], &vec![0u8; 32]).err(), Some(DrbgError::InvalidSeedLength));
    assert!(CtrDrbg::new(Cipher::Aes192, &vec![0u8; 40], &vec![0u8; 40]).is_ok());
    let mut d = zero_drbg(Cipher::Aes128, 32);
    let mut buf = vec![9u8; 8];
    assert_eq!(d.fill_bytes_with_additional(&mut buf, &vec![1u8; 33]), Err(DrbgError::InvalidSeedLength));
    assert_eq!(buf, vec![9u8; 8]);
}

#[test]
fn next_u32_reads_little_endian() {
    let mut a = zero_drbg(Cipher::Aes128, 32);
    let mut b = zero_drbg(Cipher::Aes128, 32);
    let mut bytes = vec![0u8; 4];
    b.fill_bytes(&mut bytes);
    assert_eq!(a.next_u32(), u32::from_le_bytes([bytes[0], bytes[1], bytes[2], bytes[3]]));
    assert_eq!(a.next_u32() as i32, -1324191812);
}

#[test]
fn next_u64_reads_little_endian() {
    let mut a = zero_drbg(Cipher::Aes256, 48);
    let mut b = zero_drbg(Cipher::Aes256, 48);
    let mut bytes = vec![0u8; 8];
    b.fill_bytes(&mut bytes);
    let mut arr = [0u8; 8];
    arr.copy_from_slice(&bytes);
    assert_eq!(a.next_u64(), u64::from_le_bytes(arr));
}

#[test]
fn empty_request_still_rekeys() {
    let mut a = zero_drbg(Cipher::Aes128, 32);
    let mut b = zero_drbg(Cipher::Aes128, 32);
    let mut empty: Vec<u8> = Vec::new();
    a.fill_bytes(&mut empty);
    assert!(empty.is_empty());
    assert_ne!(a.next_u32(), b.next_u32());
}
