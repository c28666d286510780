use cipher_kit::cipher::{Algorithm, CipherError};
use cipher_kit::modes::{fix_key, Xxtea, XxteaCfb};
use cipher_kit::settings::{XxteaArgs, XxteaCfbArgs};
use cipher_kit::words::{to_bytes, to_u32};
use cipher_kit::xxtea::{decrypt_, encrypt_};

fn cfb_args(iv: &str, block_size: &str, key: &str) -> XxteaCfbArgs {
    XxteaCfbArgs {
        iv: Some(iv.to_owned()),
        block_size: Some(block_size.to_owned()),
        key: Some(key.to_owned()),
    }
}

#[test]
fn xxtea_1() {
    let starting = "Hellouw".as_bytes();

    let u32s = to_u32(&starting, true);
    let bytes = to_bytes(&u32s, true).unwrap();

    assert_eq!(starting, bytes);

    let u32s = to_u32(&starting, false);
    let bytes = to_bytes(&u32s, false).unwrap();

    assert_ne!(starting, bytes);
}

#[test]
fn test_xxtea_3() {
    let starting = "Hellouw".as_bytes();

    let u32s = to_u32(&starting, true);
    let bytes = to_bytes(&u32s, true).unwrap();

    assert_eq!(starting, bytes);

    let u32s = to_u32(&starting, false);
    let bytes = to_bytes(&u32s, false).unwrap();

    assert_ne!(starting, bytes);
}

fn encrypt_raw(data: &[u8], key: &str) -> Vec<u8> {
    let key = fix_key(&to_u32(key.as_bytes(), false));
    to_bytes(&encrypt_(to_u32(&data, false), &key), false).unwrap()
}

fn decrypt_raw(data: &[u8], key: &str) -> Vec<u8> {
    let key = fix_key(&to_u32(key.as_bytes(), false));
    to_bytes(&decrypt_(to_u32(&data, false), &key), false).unwrap()
}

#[test]
fn alg_xxtea_2() {
    let key: &str = "SecretKey";

    let data: [u8; 5] = [11, 13, 0, 14, 15];
    let encrypted_data = encrypt_raw(&data, key);
    let decrypted_data = decrypt_raw(&encrypted_data, key);

    assert!(data.iter().eq(decrypted_data[0..data.len()].iter()));
}

fn encrypt_len(data: &[u8], key: &str) -> Vec<u8> {
    let key = fix_key(&to_u32(key.as_bytes(), false));
    to_bytes(&encrypt_(to_u32(&data, true), &key), false).unwrap()
}

fn decrypt_len(data: &[u8], key: &str) -> Vec<u8> {
    let key = fix_key(&to_u32(key.as_bytes(), false));
    to_bytes(&decrypt_(to_u32(&data, false), &key), true).unwrap()
}

#[test]
fn alg_xxtea_3() {
    let key: &str = "SecretKey";

    let data = "Hellouw";
    let encrypted_data = encrypt_len(&data.as_bytes(), key);
    let decrypted_data = decrypt_len(&encrypted_data, key);

    let result = String::from_utf8(decrypted_data).unwrap();

    assert_eq!(data, result)
}

#[test]
fn xxtea_full() {
    let alg = Xxtea::try_new(&XxteaArgs {
        key: Some("SecretKey".to_owned()),
    })
    .unwrap();

    let data = "Hellouw there".as_bytes();

    let encrypted = alg.encrypt(data).unwrap();
    let decrypted = alg.decrypt(&encrypted).unwrap();

    assert_eq!(data, decrypted)
}

#[test]
fn cfb() {
    let alg = XxteaCfb::try_new(&XxteaCfbArgs {
        iv: Some("asdfas34asdfasdfasdkljsdklfj".to_owned()),
        block_size: Some("8".to_owned()),
        key: Some("SecretKey".to_owned()),
    })
    .unwrap();

    let data = "Hellouw there".as_bytes();

    let encrypted = alg.encrypt(data).unwrap();
    let decrypted = alg.decrypt(&encrypted).unwrap();

    assert_eq!(data, decrypted)
}

#[test]
fn key_from_string_is_packed_and_padded() {
    assert_eq!(
        fix_key(&to_u32(b"SecretKey", false)),
        [0x7263_6553, 0x654b_7465, 0x79, 0]
    );
    assert_eq!(
        fix_key(&to_u32(b"0123456789abcdefXYZ", false)),
        [0x3332_3130, 0x3736_3534, 0x6261_3938, 0x6665_6463]
    );
    assert_eq!(fix_key(&[]), [0, 0, 0, 0]);
}

#[test]
fn packer_is_little_endian_with_length_word() {
    assert_eq!(to_u32(&[1, 2, 3, 4, 5], false), vec![0x0403_0201, 5]);
    assert_eq!(to_u32(&[1, 2, 3, 4, 5], true), vec![0x0403_0201, 5, 5]);
    assert_eq!(to_u32(&[], true), vec![0]);
    assert_eq!(to_u32(&[], false), Vec::<u32>::new());
    assert_eq!(to_bytes(&[0x0403_0201, 0x0000_0605], false).unwrap(), vec![1, 2, 3, 4, 5, 6, 0, 0]);
    assert_eq!(to_bytes(&[0x0403_0201, 0x0000_0605, 6], true).unwrap(), vec![1, 2, 3, 4, 5, 6]);
}

#[test]
fn packer_rejects_length_words_that_do_not_fit() {
    assert_eq!(to_bytes(&[0x0403_0201, 0x0000_0605, 9], true), Err(CipherError::Corrupt));
    assert_eq!(to_bytes(&[0x0403_0201, 0x0000_0605, 4], true), Err(CipherError::Corrupt));
    assert_eq!(to_bytes(&[0x0403_0201, 0x0000_0605, 5], true).unwrap(), vec![1, 2, 3, 4, 5]);
    assert_eq!(to_bytes(&[0x0403_0201, 0x0000_0605, 8], true).unwrap(), vec![1, 2, 3, 4, 5, 6, 0, 0]);
    assert_eq!(to_bytes(&[], true), Err(CipherError::Corrupt));
    assert_eq!(to_bytes(&[0], true).unwrap(), Vec::<u8>::new());
}

#[test]
fn xxtea_with_length_exact_ciphertext() {
    let alg = Xxtea::try_new(&XxteaArgs {
        key: Some("SecretKey".to_owned()),
    })
    .unwrap();
    let encrypted = alg.encrypt(b"Hellouw there").unwrap();
    assert_eq!(
        encrypted,
        vec![186, 166, 152, 78, 93, 210, 226, 84, 12, 143, 139, 88, 219, 169, 24, 221, 100, 253, 173, 166]
    );
    assert_eq!(alg.encrypt(b"").unwrap(), vec![11, 54, 130, 140]);
}

#[test]
fn xxtea_raw_exact_ciphertext_and_padding() {
    let encrypted = encrypt_raw(&[11, 13, 0, 14, 15], "SecretKey");
    assert_eq!(encrypted, vec![142, 200, 81, 167, 90, 185, 1, 251]);
    assert_eq!(decrypt_raw(&encrypted, "SecretKey"), vec![11, 13, 0, 14, 15, 0, 0, 0]);
}

#[test]
fn xxtea_round_trips_many_lengths() {
    let alg = Xxtea::try_new(&XxteaArgs {
        key: Some("another key".to_owned()),
    })
    .unwrap();
    for len in 1..70usize {
        let data: Vec<u8> = (0..len).map(|i| (i * 37 + len) as u8).collect();
        let encrypted = alg.encrypt(&data).unwrap();
        assert_eq!(encrypted.len(), 4 * ((len + 3) / 4) + 4);
        assert_eq!(alg.decrypt(&encrypted).unwrap(), data);
    }
}

#[test]
fn xxtea_decrypt_reports_corruption() {
    let alg = Xxtea::try_new(&XxteaArgs {
        key: Some("SecretKey".to_owned()),
    })
    .unwrap();
    assert_eq!(alg.decrypt(b""), Err(CipherError::Corrupt));
    let mut encrypted = alg.encrypt(b"Hellouw there").unwrap();
    encrypted[17] ^= 0x40;
    assert_eq!(alg.decrypt(&encrypted), Err(CipherError::Corrupt));
}

#[test]
fn xxtea_needs_a_key() {
    assert!(matches!(
        Xxtea::try_new(&XxteaArgs { key: None }),
        Err(CipherError::MissingField)
    ));
    assert!(Xxtea::try_new(&XxteaArgs::default()).is_ok());
}

#[test]
fn cfb_exact_ciphertext() {
    let alg = XxteaCfb::try_new(&cfb_args("asdfas34asdfasdfasdkljsdklfj", "8", "SecretKey")).unwrap();
    let encrypted = alg.encrypt(b"Hellouw there").unwrap();
    assert_eq!(encrypted, vec![39, 18, 103, 56, 96, 227, 84, 15, 114, 152, 176, 252, 75]);
    let wide = XxteaCfb::try_new(&cfb_args("asdfas34asdfasdfasdkljsdklfj", "12", "SecretKey")).unwrap();
    let encrypted = wide.encrypt(b"Hellouw there").unwrap();
    assert_eq!(encrypted, vec![85, 58, 169, 157, 143, 224, 136, 231, 190, 43, 80, 220, 109]);
    assert_eq!(wide.decrypt(&encrypted).unwrap(), b"Hellouw there".to_vec());
}

#[test]
fn cfb_short_last_chunk_round_trips() {
    let alg = XxteaCfb::try_new(&cfb_args("0123456789abcdef", "16", "k")).unwrap();
    for len in 0..50usize {
        let data: Vec<u8> = (0..len).map(|i| (i * 11) as u8).collect();
        let encrypted = alg.encrypt(&data).unwrap();
        assert_eq!(encrypted.len(), len);
        assert_eq!(alg.decrypt(&encrypted).unwrap(), data);
    }
}

#[test]
fn cfb_is_deterministic_and_feeds_back_ciphertext() {
    let alg = XxteaCfb::try_new(&cfb_args("asdfas34asdfasdf", "8", "SecretKey")).unwrap();
    let a = alg.encrypt(b"0123456789abcdefXYZ").unwrap();
    let b = alg.encrypt(b"0123456789abcdefXYZ").unwrap();
    assert_eq!(a, b);
    // Changing one plaintext byte changes every later block.
    let c = alg.encrypt(b"0123456789abcdeXXYZ").unwrap();
    assert_eq!(a[..8], c[..8]);
    assert_ne!(a[16..], c[16..]);
}

#[test]
fn cfb_settings_faults() {
    let err = |a: XxteaCfbArgs| XxteaCfb::try_new(&a).err();
    assert_eq!(
        err(XxteaCfbArgs { key: None, ..cfb_args("abcdefgh", "8", "k") }),
        Some(CipherError::MissingField)
    );
    assert_eq!(err(cfb_args("abcdefgh", "eight", "k")), Some(CipherError::InvalidBlockSize));
    assert_eq!(err(cfb_args("abcdefgh", "-8", "k")), Some(CipherError::InvalidBlockSize));
    assert_eq!(
        err(cfb_args("abcdefgh", "99999999999999999999999", "k")),
        Some(CipherError::InvalidBlockSize)
    );
    assert_eq!(err(cfb_args("abcdefgh", "7", "k")), Some(CipherError::BlockSizeTooSmall));
    assert_eq!(err(cfb_args("", "8", "k")), Some(CipherError::EmptyIv));
    assert_eq!(err(cfb_args("abcdefg", "8", "k")), Some(CipherError::IvTooShort));
    assert!(XxteaCfb::try_new(&cfb_args("abcdefgh", "+8", "")).is_ok());
    assert!(XxteaCfb::try_new(&XxteaCfbArgs::default()).is_ok());
}

#[test]
fn cfb_block_size_not_multiple_of_four_is_refused() {
    let alg = XxteaCfb::try_new(&cfb_args("abcdefghijkl", "9", "k")).unwrap();
    assert_eq!(alg.encrypt(b"hello"), Err(CipherError::BlockLengthMismatch));
    assert_eq!(alg.decrypt(b"hello"), Err(CipherError::BlockLengthMismatch));
    assert_eq!(alg.encrypt(b"").unwrap(), Vec::<u8>::new());
}

#[test]
fn xxtea_raw_single_word_is_mixed_with_itself() {
    // One word is both its own neighbours, so the raw transform does not come
    // back; the length-carrying form always has two words or more.
    let encrypted = encrypt_raw(&[1], "SecretKey");
    assert_eq!(encrypted.len(), 4);
    assert_eq!(decrypt_raw(&encrypted, "SecretKey"), vec![6, 118, 183, 112]);
    let alg = Xxtea::try_new(&XxteaArgs {
        key: Some("SecretKey".to_owned()),
    })
    .unwrap();
    let encrypted = alg.encrypt(&[1]).unwrap();
    assert_eq!(alg.decrypt(&encrypted).unwrap(), vec![1]);
}

#[test]
fn cfb_large_block_size_is_accepted() {
    let iv = "v".repeat(4100);
    let alg = XxteaCfb::try_new(&cfb_args(&iv, "4096", "k")).unwrap();
    let data: Vec<u8> = (0..10000u32).map(|i| (i % 251) as u8).collect();
    let encrypted = alg.encrypt(&data).unwrap();
    assert_eq!(encrypted.len(), data.len());
    assert_eq!(alg.decrypt(&encrypted).unwrap(), data);
}
