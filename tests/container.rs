use eakio::crypto::{Crypto, Error as CryptoError, Salt};
use eakio::file::{crypto_data_size, open_frame, seal_frame, Error, FileCrypt, BLOCK_SIZE};

fn encrypt(secret: &[u8], plain: &[u8]) -> Vec<u8> {
    FileCrypt::new(secret).encrypt(plain).unwrap()
}

fn decrypt(secret: &[u8], container: &[u8]) -> Result<Vec<u8>, Error> {
    FileCrypt::new(secret).decrypt(container)
}

/// A version 1 container (no size record) built from the engine directly.
fn v1_container(secret: &[u8], salt_bytes: &[u8; 32], plain: &[u8]) -> Vec<u8> {
    let salt = Salt::from_bytes(salt_bytes).unwrap();
    let mut crypto = Crypto::new(secret, &salt).unwrap();
    let mut out = b"KELSI".to_vec();
    out.push(1);
    out.extend_from_slice(salt_bytes);
    for chunk in plain.chunks(BLOCK_SIZE) {
        let mut buf = chunk.to_vec();
        buf.extend_from_slice(&[0u8; 16]);
        let n = crypto.encrypt(&mut buf[..], chunk.len()).unwrap();
        out.extend_from_slice(&buf[..n]);
    }
    out
}

#[test]
fn zero_byte_round_trip() {
    let c = encrypt(b"", b"");
    assert_eq!(c.len(), 62);
    assert_eq!(&c[..6], &[0x4B, 0x45, 0x4C, 0x53, 0x49, 0x02]);
    assert_eq!(decrypt(b"", &c).unwrap(), Vec::<u8>::new());
}

#[test]
fn short_string_round_trip() {
    let c = encrypt(b"hunter2", b"hello\n");
    assert_eq!(c.len(), 84);
    assert_eq!(decrypt(b"hunter2", &c).unwrap(), b"hello\n".to_vec());
}

#[test]
fn exact_block_round_trip() {
    let plain = vec![0u8; 131072];
    let c = encrypt(b"k", &plain);
    assert_eq!(c.len(), 131150);
    assert_eq!(c.len() - 62, 131088);
    assert_eq!(decrypt(b"k", &c).unwrap(), plain);
}

#[test]
fn block_plus_one_gives_two_frames() {
    let plain: Vec<u8> = (0..131073u32).map(|i| (i % 251) as u8).collect();
    let c = encrypt(b"k", &plain);
    assert_eq!(c.len(), 62 + 131088 + 17);
    assert_eq!(decrypt(b"k", &c).unwrap(), plain);
}

#[test]
fn tamper_detection() {
    let mut c = encrypt(b"hunter2", b"hello\n");
    let last = c.len() - 1;
    c[last] ^= 0x01;
    assert_eq!(decrypt(b"hunter2", &c), Err(Error::Crypto(CryptoError::Open)));
}

#[test]
fn wrong_password() {
    let c = encrypt(b"hunter2", b"hello\n");
    assert_eq!(decrypt(b"Hunter2", &c), Err(Error::Crypto(CryptoError::Open)));
}

#[test]
fn v2_truncation_reports_size_mismatch() {
    let plain = vec![0u8; 131072];
    let c = encrypt(b"k", &plain);
    let cut = &c[..c.len() - 100];
    assert_eq!(decrypt(b"k", cut), Err(Error::SizeMismatch(131050, 131150)));
}

#[test]
fn every_truncation_of_v2_fails() {
    let c = encrypt(b"pw", b"some plaintext bytes");
    for k in 0..c.len() {
        let r = decrypt(b"pw", &c[..k]);
        if k >= 62 {
            assert_eq!(r, Err(Error::SizeMismatch(k as u64, c.len() as u64)));
        } else {
            assert_eq!(r, Err(Error::Truncated));
        }
    }
}

#[test]
fn extension_of_v2_fails() {
    let mut c = encrypt(b"pw", b"abc");
    let n = c.len() as u64;
    c.push(0);
    assert_eq!(decrypt(b"pw", &c), Err(Error::SizeMismatch(n + 1, n)));
}

#[test]
fn every_single_bit_flip_fails() {
    let c = encrypt(b"pw", b"xyz");
    for i in 0..c.len() {
        for bit in 0..8 {
            let mut t = c.clone();
            t[i] ^= 1 << bit;
            assert!(decrypt(b"pw", &t).is_err());
        }
    }
}

#[test]
fn two_encryptions_differ() {
    let a = encrypt(b"pw", b"same plaintext");
    let b = encrypt(b"pw", b"same plaintext");
    assert_ne!(a, b);
    assert_ne!(&a[6..38], &b[6..38]);
}

#[test]
fn ciphertext_hides_plaintext() {
    let c = encrypt(b"pw", b"hello hello hello");
    assert!(!c.windows(5).any(|w| w == b"hello"));
}

#[test]
fn v1_container_is_readable() {
    let plain = b"legacy data".to_vec();
    let c = v1_container(b"old", &[6u8; 32], &plain);
    assert_eq!(c.len(), 38 + plain.len() + 16);
    assert_eq!(decrypt(b"old", &c).unwrap(), plain);
}

#[test]
fn v1_container_without_last_frame_yields_prefix() {
    let plain: Vec<u8> = (0..(BLOCK_SIZE + 5)).map(|i| (i % 7) as u8).collect();
    let c = v1_container(b"old", &[6u8; 32], &plain);
    let cut = &c[..38 + BLOCK_SIZE + 16];
    assert_eq!(decrypt(b"old", cut).unwrap(), plain[..BLOCK_SIZE].to_vec());
}

#[test]
fn unknown_version_is_rejected() {
    let mut c = encrypt(b"pw", b"data");
    c[5] = 3;
    assert_eq!(decrypt(b"pw", &c), Err(Error::UnsupportedVersion(3)));
    c[5] = 0;
    assert_eq!(decrypt(b"pw", &c), Err(Error::UnsupportedVersion(0)));
}

#[test]
fn bad_magic_is_rejected() {
    let mut c = encrypt(b"pw", b"data");
    c[0] = b'k';
    assert_eq!(decrypt(b"pw", &c), Err(Error::MagicMismatch));
}

#[test]
fn short_headers_are_truncated() {
    assert_eq!(decrypt(b"pw", b""), Err(Error::Truncated));
    assert_eq!(decrypt(b"pw", b"KEL"), Err(Error::Truncated));
    assert_eq!(decrypt(b"pw", b"KELSI"), Err(Error::Truncated));
    let mut v1 = b"KELSI".to_vec();
    v1.push(1);
    v1.extend_from_slice(&[0u8; 31]);
    assert_eq!(decrypt(b"pw", &v1), Err(Error::Truncated));
    let mut v2 = b"KELSI".to_vec();
    v2.push(2);
    v2.extend_from_slice(&[0u8; 40]);
    assert_eq!(decrypt(b"pw", &v2), Err(Error::Truncated));
}

#[test]
fn forged_size_record_fails_to_open() {
    let mut c = encrypt(b"pw", b"data");
    c[40] ^= 0x80;
    assert_eq!(decrypt(b"pw", &c), Err(Error::Crypto(CryptoError::Open)));
}

#[test]
fn reordered_frames_fail() {
    let plain: Vec<u8> = (0..(2 * BLOCK_SIZE)).map(|i| (i / BLOCK_SIZE) as u8).collect();
    let c = encrypt(b"pw", &plain);
    let frame = BLOCK_SIZE + 16;
    let mut swapped = c[..62].to_vec();
    swapped.extend_from_slice(&c[62 + frame..62 + 2 * frame]);
    swapped.extend_from_slice(&c[62..62 + frame]);
    assert_eq!(decrypt(b"pw", &swapped), Err(Error::Crypto(CryptoError::Open)));
}

#[test]
fn crypto_data_size_values() {
    assert_eq!(crypto_data_size(0), 0);
    assert_eq!(crypto_data_size(1), 17);
    assert_eq!(crypto_data_size(6), 22);
    assert_eq!(crypto_data_size(131072), 131088);
    assert_eq!(crypto_data_size(131073), 131105);
    assert_eq!(crypto_data_size(3 * 131072), 3 * 131088);
}

#[test]
fn encrypt_with_salt_places_salt_and_is_deterministic() {
    let salt = Salt::from_bytes(&[0xA5u8; 32]).unwrap();
    let fc = FileCrypt::new(b"hunter2");
    let a = fc.encrypt_with_salt(&salt, b"hello\n");
    let b = fc.encrypt_with_salt(&salt, b"hello\n");
    assert_eq!(a, b);
    assert_eq!(a.len(), 84);
    assert_eq!(&a[..6], b"KELSI\x02");
    assert_eq!(&a[6..38], &[0xA5u8; 32][..]);
    assert_eq!(decrypt(b"hunter2", &a).unwrap(), b"hello\n".to_vec());

    let other = Salt::from_bytes(&[0x5Au8; 32]).unwrap();
    let c = fc.encrypt_with_salt(&other, b"hello\n");
    assert_ne!(a, c);
}

#[test]
fn encrypt_with_salt_boundary_sizes() {
    let salt = Salt::from_bytes(&[1u8; 32]).unwrap();
    let fc = FileCrypt::new(b"k");
    assert_eq!(fc.encrypt_with_salt(&salt, b"").len(), 62);
    assert_eq!(fc.encrypt_with_salt(&salt, &vec![0u8; BLOCK_SIZE]).len(), 131150);
    assert_eq!(fc.encrypt_with_salt(&salt, &vec![0u8; BLOCK_SIZE + 1]).len(), 131167);
}

#[test]
fn streamed_frames_match_whole_container() {
    let salt = Salt::from_bytes(&[2u8; 32]).unwrap();
    let fc = FileCrypt::new(b"stream");
    let plain: Vec<u8> = (0..(2 * BLOCK_SIZE + 10)).map(|i| (i % 13) as u8).collect();
    let (mut crypto, mut out) = fc.begin_encrypt(&salt, plain.len());
    assert_eq!(out.len(), 62);
    for chunk in plain.chunks(BLOCK_SIZE) {
        let mut frame = Vec::new();
        seal_frame(&mut crypto, chunk, 0, chunk.len(), &mut frame);
        out.extend_from_slice(&frame);
    }
    assert_eq!(out, fc.encrypt_with_salt(&salt, &plain));
    assert_eq!(decrypt(b"stream", &out).unwrap(), plain);
}

#[test]
fn streamed_decrypt_matches_whole_decrypt() {
    let plain: Vec<u8> = (0..(BLOCK_SIZE + 40)).map(|i| (i % 17) as u8).collect();
    let c = encrypt(b"s", &plain);
    let fc = FileCrypt::new(b"s");
    let (mut crypto, header) = fc.begin_decrypt(&c[..62], c.len()).unwrap();
    assert_eq!(header, 62);
    let mut out = Vec::new();
    for frame in c[62..].chunks(BLOCK_SIZE + 16) {
        open_frame(&mut crypto, frame, 0, frame.len(), &mut out).unwrap();
    }
    assert_eq!(out, plain);

    assert_eq!(
        fc.begin_decrypt(&c[..62], c.len() - 1).err(),
        Some(Error::SizeMismatch((c.len() - 1) as u64, c.len() as u64))
    );
    let v1 = v1_container(b"s", &[3u8; 32], b"tiny");
    let (_, h1) = fc.begin_decrypt(&v1[..v1.len().min(62)], v1.len()).unwrap();
    assert_eq!(h1, 38);
}
