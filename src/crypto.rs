use vstd::prelude::*;
use vstd::slice::slice_subrange;
use vstd::slice::slice_to_vec;

use crate::aead::{
    aes_gcm_open_in_place, aes_gcm_seal, aes_gcm_seal_in_place, fill_random, hkdf_sha256,
    hkdf_sha256_key, GCM_MAX_INPUT, KEY_LEN, TAG_LEN,
};

verus! {

/// Length in bytes of a salt: the recommended HMAC key length for SHA-256.
pub const SALT_LEN: usize = 32;

/// The HKDF context string under which file keys are derived.
pub const INFO_KEY: &'static str = "hello kelsi";

/// The bytes of `INFO_KEY`.
pub open spec fn info_key() -> Seq<u8> {
    seq![0x68u8, 0x65, 0x6c, 0x6c, 0x6f, 0x20, 0x6b, 0x65, 0x6c, 0x73, 0x69]
}

/// The AEAD key derived from `secret` and `salt`.
pub open spec fn derive_key(secret: Seq<u8>, salt: Seq<u8>) -> Seq<u8> {
    hkdf_sha256(secret, salt, info_key())
}

#[derive(Clone, Copy, Debug, PartialEq, Eq, Structural)]
pub enum Error {
    GenSalt,
    SaltLenNotMatch(usize),
    OpenKey,
    SealKey,
    SealBufferTooSmall(usize),
    Open,
    Seal,
}

/// Length in bytes of the AEAD nonce.
pub const NONCE_LEN: usize = 12;

/// The counter `s` after one step: add one to byte 0, carrying into the
/// following bytes while a byte wraps from 0xFF to 0.
pub open spec fn incr_spec(s: Seq<u8>) -> Seq<u8>
    decreases s.len(),
{
    if s.len() == 0 {
        s
    } else if s[0] == 255 {
        seq![0u8] + incr_spec(s.drop_first())
    } else {
        s.update(0, (s[0] + 1) as u8)
    }
}

/// The `len` little-endian bytes of the number `i` (taken modulo 256^len).
pub open spec fn nonce_of(i: nat, len: nat) -> Seq<u8>
    decreases len,
{
    if len == 0 {
        Seq::empty()
    } else {
        seq![(i % 256) as u8] + nonce_of(i / 256, (len - 1) as nat)
    }
}

/// 256 to the power `n`.
pub open spec fn pow256(n: nat) -> nat
    decreases n,
{
    if n == 0 {
        1
    } else {
        256 * pow256((n - 1) as nat)
    }
}

/// `k` steps of the counter from `s`.
pub open spec fn incr_times(s: Seq<u8>, k: nat) -> Seq<u8>
    decreases k,
{
    if k == 0 {
        s
    } else {
        incr_spec(incr_times(s, (k - 1) as nat))
    }
}

pub proof fn lemma_nonce_of_len(i: nat, len: nat)
    ensures
        nonce_of(i, len).len() == len,
    decreases len,
{
    if len > 0 {
        lemma_nonce_of_len(i / 256, (len - 1) as nat);
    }
}

pub proof fn lemma_nonce_of_zero(len: nat)
    ensures
        nonce_of(0, len) =~= Seq::new(len, |k: int| 0u8),
    decreases len,
{
    if len > 0 {
        lemma_nonce_of_zero((len - 1) as nat);
    }
}

pub proof fn lemma_incr_len(s: Seq<u8>)
    ensures
        incr_spec(s).len() == s.len(),
    decreases s.len(),
{
    if s.len() > 0 && s[0] == 255 {
        lemma_incr_len(s.drop_first());
    }
}

/// One step of the counter takes the encoding of `i` to the encoding of `i + 1`.
pub proof fn lemma_incr_nonce_of(i: nat, len: nat)
    requires
        i + 1 < pow256(len),
    ensures
        incr_spec(nonce_of(i, len)) == nonce_of(i + 1, len),
    decreases len,
{
    let s = nonce_of(i, len);
    lemma_nonce_of_len(i, len);
    if len == 0 {
    } else {
        let l1 = (len - 1) as nat;
        lemma_nonce_of_len(i / 256, l1);
        assert(s.drop_first() =~= nonce_of(i / 256, l1));
        if i % 256 == 255 {
            assert((i + 1) % 256 == 0);
            assert((i + 1) / 256 == i / 256 + 1);
            assert(i / 256 + 1 < pow256(l1)) by {
                assert(pow256(len) == 256 * pow256(l1));
            }
            lemma_incr_nonce_of(i / 256, l1);
            assert(incr_spec(s) =~= nonce_of(i + 1, len));
        } else {
            assert((i + 1) % 256 == i % 256 + 1);
            assert((i + 1) / 256 == i / 256);
            assert(incr_spec(s) =~= nonce_of(i + 1, len));
        }
    }
}

/// Counter monotonicity: `k` steps from the all-zero counter give the
/// little-endian encoding of `k`.
pub proof fn lemma_nonce_after_steps(k: nat)
    requires
        k < pow256(NONCE_LEN as nat),
    ensures
        incr_times(nonce_of(0, NONCE_LEN as nat), k) == nonce_of(k, NONCE_LEN as nat),
    decreases k,
{
    if k > 0 {
        lemma_nonce_after_steps((k - 1) as nat);
        lemma_incr_nonce_of((k - 1) as nat, NONCE_LEN as nat);
    }
}

/// Advances the little-endian counter held in `nonce` by one.
pub fn incr_nonce(nonce: &mut [u8])
    ensures
        final(nonce)@ == incr_spec(old(nonce)@),
{
    let ghost orig = nonce@;
    let n = nonce.len();
    let mut i: usize = 0;
    let mut done = false;
    assert(orig.subrange(0, n as int) =~= orig);
    assert(incr_spec(orig) =~= Seq::new(0, |k: int| 0u8) + incr_spec(orig));
    while !done && i < n
        invariant
            0 <= i <= n,
            n == orig.len(),
            nonce@.len() == n,
            !done ==> incr_spec(orig) == Seq::new(i as nat, |k: int| 0u8) + incr_spec(orig.subrange(i as int, n as int)),
            !done ==> nonce@.subrange(i as int, n as int) == orig.subrange(i as int, n as int),
            !done ==> forall|k: int| 0 <= k < i ==> nonce@[k] == 0,
            done ==> nonce@ == incr_spec(orig),
        decreases n - i + (if done { 0int } else { 1int }),
    {
        let b = nonce[i];
        let ghost rest = orig.subrange(i as int, n as int);
        assert(rest[0] == b) by {
            assert(nonce@.subrange(i as int, n as int)[0] == nonce@[i as int]);
        }
        if b == 255 {
            nonce[i] = 0;
            assert(rest.drop_first() =~= orig.subrange(i + 1, n as int));
            assert(incr_spec(orig) =~= Seq::new((i + 1) as nat, |k: int| 0u8) + incr_spec(orig.subrange(i + 1, n as int)));
            assert(nonce@.subrange(i + 1, n as int) =~= orig.subrange(i + 1, n as int));
            i = i + 1;
            if i == n {
                assert(orig.subrange(n as int, n as int) =~= Seq::<u8>::empty());
                assert(nonce@ =~= incr_spec(orig));
                done = true;
            }
        } else {
            nonce[i] = b + 1;
            proof {
                assert(incr_spec(rest) == rest.update(0, (b + 1) as u8));
                assert(nonce@ =~= Seq::new(i as nat, |k: int| 0u8) + rest.update(0, (b + 1) as u8));
            }
            done = true;
        }
    }
    proof {
        if !done {
            assert(orig.subrange(n as int, n as int) =~= Seq::<u8>::empty());
            assert(nonce@ =~= incr_spec(orig));
        }
    }
}

/// The random per-file input of key derivation.
pub struct Salt {
    bytes: Vec<u8>,
}

impl View for Salt {
    type V = Seq<u8>;

    closed spec fn view(&self) -> Seq<u8> {
        self.bytes@
    }
}

impl Salt {
    /// Draws a fresh salt from the system's secure generator.
    pub fn new() -> (r: Result<Salt, Error>)
        ensures
            r matches Ok(s) ==> s@.len() == SALT_LEN,
            r matches Err(e) ==> e == Error::GenSalt,
    {
        let mut bytes: Vec<u8> = vec![0u8; SALT_LEN];
        match fill_random(bytes.as_mut_slice()) {
            Ok(()) => Ok(Salt { bytes }),
            Err(_) => Err(Error::GenSalt),
        }
    }

    /// A salt read back from a container.
    pub fn from_bytes(bytes: &[u8]) -> (r: Result<Salt, Error>)
        ensures
            bytes@.len() == SALT_LEN <==> r is Ok,
            r matches Ok(s) ==> s@ == bytes@,
            r matches Err(e) ==> e == Error::SaltLenNotMatch(SALT_LEN),
    {
        if bytes.len() != SALT_LEN {
            return Err(Error::SaltLenNotMatch(SALT_LEN));
        }
        Ok(Salt { bytes: slice_to_vec(bytes) })
    }

    pub fn len() -> (r: usize)
        ensures
            r == SALT_LEN,
    {
        SALT_LEN
    }

    pub fn get_bytes(&self) -> (r: &[u8])
        ensures
            r@ == self@,
    {
        self.bytes.as_slice()
    }
}

/// An AES-256-GCM sealer and opener under one derived key, each with its own
/// nonce counter.
pub struct Crypto {
    key: Vec<u8>,
    open_nonce: Vec<u8>,
    seal_nonce: Vec<u8>,
}

impl Crypto {
    pub closed spec fn key(&self) -> Seq<u8> {
        self.key@
    }

    pub closed spec fn open_nonce(&self) -> Seq<u8> {
        self.open_nonce@
    }

    pub closed spec fn seal_nonce(&self) -> Seq<u8> {
        self.seal_nonce@
    }

    pub closed spec fn wf(&self) -> bool {
        &&& self.key@.len() == KEY_LEN
        &&& self.open_nonce@.len() == NONCE_LEN
        &&& self.seal_nonce@.len() == NONCE_LEN
    }

    /// Derives the key from `secret` and `salt`; both counters start at zero.
    pub fn new(secret: &[u8], salt: &Salt) -> (r: Result<Crypto, Error>)
        ensures
            r is Ok,
            r matches Ok(c) ==> {
                &&& c.wf()
                &&& c.key() == derive_key(secret@, salt@)
                &&& c.open_nonce() == nonce_of(0, NONCE_LEN as nat)
                &&& c.seal_nonce() == nonce_of(0, NONCE_LEN as nat)
            },
    {
        let info: &[u8] = INFO_KEY.as_bytes();
        proof {
            reveal_strlit("hello kelsi");
            broadcast use vstd::string::is_ascii_spec_bytes;
            assert(vstd::string::is_ascii(INFO_KEY));
            assert(info@ =~= info_key());
        }
        let key = match hkdf_sha256_key(secret, salt.get_bytes(), info) {
            Ok(k) => k,
            Err(_) => return Err(Error::OpenKey),
        };
        let open_nonce: Vec<u8> = vec![0u8; NONCE_LEN];
        let seal_nonce: Vec<u8> = vec![0u8; NONCE_LEN];
        proof {
            lemma_nonce_of_zero(NONCE_LEN as nat);
            assert(open_nonce@ =~= nonce_of(0, NONCE_LEN as nat));
            assert(seal_nonce@ =~= nonce_of(0, NONCE_LEN as nat));
        }
        Ok(Crypto { key, open_nonce, seal_nonce })
    }

    pub fn tag_len() -> (r: usize)
        ensures
            r == TAG_LEN,
    {
        TAG_LEN
    }

    /// Seals the first `in_len` bytes of `inout` in place and writes the tag
    /// after them; returns `in_len + 16` and advances the seal counter.
    pub fn encrypt(&mut self, inout: &mut [u8], in_len: usize) -> (r: Result<usize, Error>)
        requires
            old(self).wf(),
            in_len + TAG_LEN <= usize::MAX,
        ensures
            final(self).wf(),
            final(self).key() == old(self).key(),
            final(self).open_nonce() == old(self).open_nonce(),
            final(inout)@.len() == old(inout)@.len(),
            r == Err::<usize, Error>(Error::SealBufferTooSmall((in_len + TAG_LEN) as usize))
                <==> old(inout)@.len() < in_len + TAG_LEN,
            old(inout)@.len() >= in_len + TAG_LEN && in_len <= GCM_MAX_INPUT ==> r is Ok,
            r matches Ok(n) ==> {
                &&& n == in_len + TAG_LEN
                &&& final(inout)@.subrange(0, n as int) == aes_gcm_seal(
                    old(self).key(),
                    old(self).seal_nonce(),
                    old(inout)@.subrange(0, in_len as int),
                )
                &&& final(inout)@.subrange(n as int, old(inout)@.len() as int)
                    == old(inout)@.subrange(n as int, old(inout)@.len() as int)
                &&& final(self).seal_nonce() == incr_spec(old(self).seal_nonce())
            },
            r is Err ==> final(self).seal_nonce() == old(self).seal_nonce() && final(inout)@ == old(inout)@,
            r matches Err(e) ==> e == Error::SealBufferTooSmall((in_len + TAG_LEN) as usize) || e == Error::Seal,
    {
        let out_len = in_len + TAG_LEN;
        if inout.len() < out_len {
            return Err(Error::SealBufferTooSmall(out_len));
        }
        let mut data = slice_to_vec(slice_subrange(inout, 0, in_len));
        match aes_gcm_seal_in_place(self.key.as_slice(), self.seal_nonce.as_slice(), &mut data) {
            Ok(()) => {},
            Err(_) => return Err(Error::Seal),
        }
        let ghost before = inout@;
        let mut i: usize = 0;
        while i < out_len
            invariant
                0 <= i <= out_len,
                data@.len() == out_len,
                out_len <= before.len(),
                inout@.len() == before.len(),
                forall|k: int| 0 <= k < i ==> inout@[k] == data@[k],
                forall|k: int| out_len <= k < before.len() ==> inout@[k] == before[k],
            decreases out_len - i,
        {
            inout[i] = data[i];
            i = i + 1;
        }
        assert(inout@.subrange(0, out_len as int) =~= data@);
        assert(inout@.subrange(out_len as int, before.len() as int) =~= before.subrange(out_len as int, before.len() as int));
        incr_nonce(self.seal_nonce.as_mut_slice());
        proof {
            lemma_incr_len(old(self).seal_nonce@);
        }
        Ok(out_len)
    }

    /// Opens the whole of `inout` in place; on success the first `len - 16`
    /// bytes hold the plaintext, that length is returned, and the open
    /// counter advances. On failure nothing changes.
    pub fn decrypt(&mut self, inout: &mut [u8]) -> (r: Result<usize, Error>)
        requires
            old(self).wf(),
        ensures
            final(self).wf(),
            final(self).key() == old(self).key(),
            final(self).seal_nonce() == old(self).seal_nonce(),
            final(inout)@.len() == old(inout)@.len(),
            r matches Ok(n) ==> {
                &&& n + TAG_LEN == old(inout)@.len()
                &&& old(inout)@ == aes_gcm_seal(
                    old(self).key(),
                    old(self).open_nonce(),
                    final(inout)@.subrange(0, n as int),
                )
                &&& final(inout)@.subrange(n as int, old(inout)@.len() as int)
                    == old(inout)@.subrange(n as int, old(inout)@.len() as int)
                &&& final(self).open_nonce() == incr_spec(old(self).open_nonce())
            },
            forall|p: Seq<u8>|
                old(inout)@ == #[trigger] aes_gcm_seal(old(self).key(), old(self).open_nonce(), p)
                    && p.len() <= GCM_MAX_INPUT
                    ==> (r == Ok::<usize, Error>(p.len() as usize)
                        && final(inout)@.subrange(0, p.len() as int) == p),
            r is Err ==> {
                &&& r == Err::<usize, Error>(Error::Open)
                &&& final(self).open_nonce() == old(self).open_nonce()
                &&& final(inout)@ == old(inout)@
            },
    {
        let mut data = slice_to_vec(inout);
        match aes_gcm_open_in_place(self.key.as_slice(), self.open_nonce.as_slice(), &mut data) {
            Ok(()) => {},
            Err(_) => return Err(Error::Open),
        }
        let n = data.len();
        let ghost before = inout@;
        let mut i: usize = 0;
        while i < n
            invariant
                0 <= i <= n,
                data@.len() == n,
                n + TAG_LEN == before.len(),
                inout@.len() == before.len(),
                forall|k: int| 0 <= k < i ==> inout@[k] == data@[k],
                forall|k: int| n <= k < before.len() ==> inout@[k] == before[k],
            decreases n - i,
        {
            inout[i] = data[i];
            i = i + 1;
        }
        assert(inout@.subrange(0, n as int) =~= data@);
        assert(inout@.subrange(n as int, before.len() as int) =~= before.subrange(n as int, before.len() as int));
        incr_nonce(self.open_nonce.as_mut_slice());
        proof {
            lemma_incr_len(old(self).open_nonce@);
        }
        Ok(n)
    }
}

} // verus!
