use eakio::crypto::{incr_nonce, Crypto, Error, Salt};

#[test]
fn test_incr_nonce() {
    let mut nonce = [0u8; 4];
    for i in 1..1024 {
        incr_nonce(&mut nonce);
        let x = (nonce[0] as usize)
            + ((nonce[1] as usize) << 8)
            + ((nonce[2] as usize) << 16)
            + ((nonce[3] as usize) << 24);
        assert_eq!(x, i);
    }
}

#[test]
fn test_crypto_normal() {
    let salt = Salt::new().unwrap();
    let mut crypto = Crypto::new(&[0u8; 8], &salt).unwrap();

    let mut buf = [0u8; 128];
    let plain_len: usize = 24;

    let out_len = crypto.encrypt(&mut buf[..], plain_len).unwrap();
    assert_eq!(out_len, plain_len + Crypto::tag_len());
    assert!(buf[out_len..].iter().all(|&x| x == 0));

    let len = crypto.decrypt(&mut buf[..out_len]).unwrap();
    assert_eq!(plain_len, len);
    assert!(buf[..plain_len].iter().all(|&x| x == 0));
}

#[test]
fn test_crypto_zerosize() {
    let salt = Salt::new().unwrap();
    let mut crypto = Crypto::new(&[0u8; 8], &salt).unwrap();

    let mut buf = [0u8; 128];

    let out_len = crypto.encrypt(&mut buf[..], 0).unwrap();
    assert_eq!(out_len, 0 + Crypto::tag_len());

    let len = crypto.decrypt(&mut buf[..out_len]).unwrap();
    assert_eq!(0, len);
}

#[test]
fn test_crypto_multi_buf() {
    let salt = Salt::new().unwrap();
    let mut crypto = Crypto::new(&[0u8; 8], &salt).unwrap();

    let mut buf1 = [0u8; 128];
    let plain_len1: usize = 24;

    let mut buf2 = [1u8; 128];
    let plain_len2: usize = 37;

    crypto.encrypt(&mut buf1[..], plain_len1).unwrap();
    let out_len2 = crypto.encrypt(&mut buf2[..], plain_len2).unwrap();

    let err = crypto.decrypt(&mut buf2[..out_len2]).unwrap_err();
    assert_eq!(err, Error::Open);

    let mut crypto1 = Crypto::new(&[0u8; 8], &salt).unwrap();
    let mut buf3 = [0u8; 128];
    let plain_len3: usize = 24;
    let mut buf4 = [2u8; 128];
    let plain_len4: usize = 24;

    let out_len3 = crypto1.encrypt(&mut buf3[..], plain_len3).unwrap();
    let out_len4 = crypto1.encrypt(&mut buf4[..], plain_len4).unwrap();

    crypto1.decrypt(&mut buf3[..out_len3]).unwrap();
    assert!(buf3[..plain_len3].iter().all(|&x| x == 0));

    crypto1.decrypt(&mut buf4[..out_len4]).unwrap();
    assert!(buf4[..plain_len4].iter().all(|&x| x == 2));
}

#[test]
fn incr_nonce_carries_across_all_bytes() {
    let mut nonce = [0xFFu8, 0xFF, 0x00];
    incr_nonce(&mut nonce);
    assert_eq!(nonce, [0x00, 0x00, 0x01]);

    let mut full = [0xFFu8; 12];
    incr_nonce(&mut full);
    assert_eq!(full, [0u8; 12]);
}

#[test]
fn seal_buffer_too_small_reports_needed_length() {
    let salt = Salt::from_bytes(&[7u8; 32]).unwrap();
    let mut crypto = Crypto::new(b"pw", &salt).unwrap();
    let mut buf = [0u8; 20];
    assert_eq!(crypto.encrypt(&mut buf[..], 5), Err(Error::SealBufferTooSmall(21)));
    // nothing was sealed, so the counter did not move
    let mut ok = [0u8; 21];
    assert_eq!(crypto.encrypt(&mut ok[..], 5), Ok(21));
}

#[test]
fn salt_from_bytes_checks_length() {
    assert_eq!(Salt::from_bytes(&[1u8; 31]).err(), Some(Error::SaltLenNotMatch(32)));
    let salt = Salt::from_bytes(&[9u8; 32]).unwrap();
    assert_eq!(salt.get_bytes(), &[9u8; 32][..]);
    assert_eq!(Salt::len(), 32);
    assert_eq!(Salt::new().unwrap().get_bytes().len(), 32);
}

#[test]
fn sealing_changes_bytes_and_opening_restores_them() {
    let salt = Salt::from_bytes(&[3u8; 32]).unwrap();
    let mut crypto = Crypto::new(b"hunter2", &salt).unwrap();
    let mut buf = [0u8; 40];
    buf[..6].copy_from_slice(b"hello\n");
    let n = crypto.encrypt(&mut buf[..], 6).unwrap();
    assert_eq!(n, 22);
    assert_ne!(&buf[..6], b"hello\n");
    let m = crypto.decrypt(&mut buf[..n]).unwrap();
    assert_eq!(m, 6);
    assert_eq!(&buf[..6], b"hello\n");
}

#[test]
fn key_depends_on_secret_and_salt() {
    let salt_a = Salt::from_bytes(&[1u8; 32]).unwrap();
    let salt_b = Salt::from_bytes(&[2u8; 32]).unwrap();
    let seal = |secret: &[u8], salt: &Salt| {
        let mut c = Crypto::new(secret, salt).unwrap();
        let mut buf = [0u8; 32];
        c.encrypt(&mut buf[..], 16).unwrap();
        buf
    };
    let base = seal(b"k", &salt_a);
    assert_eq!(base, seal(b"k", &salt_a));
    assert_ne!(base, seal(b"k", &salt_b));
    assert_ne!(base, seal(b"K", &salt_a));
}

#[test]
fn open_fails_on_short_or_forged_input() {
    let salt = Salt::from_bytes(&[5u8; 32]).unwrap();
    let mut crypto = Crypto::new(b"s", &salt).unwrap();
    let mut short = [0u8; 15];
    assert_eq!(crypto.decrypt(&mut short[..]), Err(Error::Open));
    let mut forged = [0u8; 16];
    assert_eq!(crypto.decrypt(&mut forged[..]), Err(Error::Open));
    assert_eq!(forged, [0u8; 16]);
}

#[test]
fn seal_nonce_counts_encryptions() {
    // after K seals the counter is K: a second engine that opens K - 1 dummy
    // frames first can open the K-th frame
    let salt = Salt::from_bytes(&[4u8; 32]).unwrap();
    let mut sealer = Crypto::new(b"x", &salt).unwrap();
    let mut frames = Vec::new();
    for k in 0..5u8 {
        let mut buf = [k; 20];
        sealer.encrypt(&mut buf[..], 4).unwrap();
        frames.push(buf);
    }
    let mut opener = Crypto::new(b"x", &salt).unwrap();
    for (k, frame) in frames.iter_mut().enumerate() {
        assert_eq!(opener.decrypt(&mut frame[..]), Ok(4));
        assert!(frame[..4].iter().all(|&b| b == k as u8));
    }
}
