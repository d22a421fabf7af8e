use ring::aead;
use ring::hkdf;
use ring::rand::SecureRandom;
use vstd::prelude::*;

verus! {

/// Length in bytes of an AES-256-GCM key.
pub const KEY_LEN: usize = 32;

/// Length in bytes of an AES-GCM authentication tag.
pub const TAG_LEN: usize = 16;

/// The largest input that ring seals or opens under one nonce with AES-GCM
/// ((2^32 - 2) blocks of 16 bytes).
pub const GCM_MAX_INPUT: u64 = 68719476704;

#[verifier::external_type_specification]
#[verifier::external_body]
pub struct ExUnspecified(ring::error::Unspecified);

/// The 32-byte output of HKDF-SHA256 (extract, then expand) over `secret`
/// with salt `salt` and context `info`.
pub uninterp spec fn hkdf_sha256(secret: Seq<u8>, salt: Seq<u8>, info: Seq<u8>) -> Seq<u8>;

/// The AES-256-GCM sealing of `plain` under `key` and `nonce`, with empty
/// associated data: the ciphertext followed by the 16-byte tag.
pub uninterp spec fn aes_gcm_seal(key: Seq<u8>, nonce: Seq<u8>, plain: Seq<u8>) -> Seq<u8>;

/// Relies on ring::rand::SystemRandom::fill: writes bytes drawn from the
/// system's secure generator over `dest`, or fails; the length stays.
#[verifier::external_body]
pub(crate) fn fill_random(dest: &mut [u8]) -> (r: Result<(), ring::error::Unspecified>)
    ensures
        final(dest)@.len() == old(dest)@.len(),
{
    ring::rand::SystemRandom::new().fill(dest)
}

/// Relies on ring::hkdf (Salt::new, Prk::extract, Prk::expand, Okm::fill)
/// with HKDF_SHA256, for an output as long as an AES-256-GCM key. `expand`
/// fails only for outputs longer than 255 digests, and `fill` only when the
/// output buffer differs from the requested length, so this succeeds.
#[verifier::external_body]
pub(crate) fn hkdf_sha256_key(secret: &[u8], salt: &[u8], info: &[u8]) -> (r: Result<Vec<u8>, ring::error::Unspecified>)
    ensures
        r is Ok,
        r matches Ok(k) ==> k@ == hkdf_sha256(secret@, salt@, info@) && k@.len() == KEY_LEN,
{
    let prk = hkdf::Salt::new(hkdf::HKDF_SHA256, salt).extract(secret);
    let info_parts = [info];
    let mut key = vec![0u8; aead::AES_256_GCM.key_len()];
    prk.expand(&info_parts, &aead::AES_256_GCM)?.fill(&mut key)?;
    Ok(key)
}

/// Relies on ring::aead::LessSafeKey::seal_in_place_append_tag with
/// AES_256_GCM and empty associated data: encrypts `in_out` in place and
/// appends the tag. With a 32-byte key and a 12-byte nonce it fails only on
/// an input longer than ring's per-nonce limit.
#[verifier::external_body]
pub(crate) fn aes_gcm_seal_in_place(key: &[u8], nonce: &[u8], in_out: &mut Vec<u8>) -> (r: Result<(), ring::error::Unspecified>)
    requires
        key@.len() == KEY_LEN,
        nonce@.len() == 12,
    ensures
        old(in_out)@.len() <= GCM_MAX_INPUT ==> r is Ok,
        r is Ok ==> final(in_out)@ == aes_gcm_seal(key@, nonce@, old(in_out)@),
        r is Ok ==> final(in_out)@.len() == old(in_out)@.len() + TAG_LEN,
{
    let key = aead::LessSafeKey::new(aead::UnboundKey::new(&aead::AES_256_GCM, key)?);
    let nonce = aead::Nonce::try_assume_unique_for_key(nonce)?;
    key.seal_in_place_append_tag(nonce, aead::Aad::empty(), in_out)
}

/// Relies on ring::aead::LessSafeKey::open_in_place with AES_256_GCM and
/// empty associated data: it succeeds exactly when `in_out` is the sealing of
/// some plaintext under this key and nonce, and that plaintext is then what
/// remains (the tag is cut off).
#[verifier::external_body]
pub(crate) fn aes_gcm_open_in_place(key: &[u8], nonce: &[u8], in_out: &mut Vec<u8>) -> (r: Result<(), ring::error::Unspecified>)
    requires
        key@.len() == KEY_LEN,
        nonce@.len() == 12,
    ensures
        r is Ok ==> old(in_out)@ == aes_gcm_seal(key@, nonce@, final(in_out)@),
        r is Ok ==> final(in_out)@.len() + TAG_LEN == old(in_out)@.len(),
        forall|p: Seq<u8>|
            old(in_out)@ == #[trigger] aes_gcm_seal(key@, nonce@, p) && p.len() <= GCM_MAX_INPUT
                ==> (r is Ok && final(in_out)@ == p),
{
    let key = aead::LessSafeKey::new(aead::UnboundKey::new(&aead::AES_256_GCM, key)?);
    let nonce = aead::Nonce::try_assume_unique_for_key(nonce)?;
    let plain_len = key.open_in_place(nonce, aead::Aad::empty(), in_out)?.len();
    in_out.truncate(plain_len);
    Ok(())
}

} // verus!
