use vstd::prelude::*;
use vstd::slice::slice_subrange;
use vstd::slice::slice_to_vec;

use crate::aead::{aes_gcm_seal, TAG_LEN};
use crate::crypto::{
    derive_key, incr_spec, lemma_incr_nonce_of, nonce_of, pow256, Crypto, Salt, NONCE_LEN,
    SALT_LEN,
};

verus! {

/// Plaintext bytes per frame.
pub const BLOCK_SIZE: usize = 131072;

/// Bytes of one full frame on disk: a block and its tag.
pub const FRAME_LEN: usize = 131088;

pub const MAGIC_LEN: usize = 5;

pub const VERSION_1: u8 = 0x01;

pub const VERSION_2: u8 = 0x02;

/// Magic, version and salt.
pub const HEADER_V1_LEN: usize = 38;

/// Magic, version, salt and the sealed size record.
pub const HEADER_V2_LEN: usize = 62;

/// The sealed big-endian u64 that a version 2 container carries.
pub const SIZE_REC_LEN: usize = 24;

#[derive(Clone, Copy, Debug, PartialEq, Eq, Structural)]
pub enum Error {
    Crypto(crate::crypto::Error),
    MagicMismatch,
    UnsupportedVersion(u8),
    SizeMismatch(u64, u64),
    Truncated,
}

/// ASCII "KELSI".
pub open spec fn magic() -> Seq<u8> {
    seq![0x4Bu8, 0x45, 0x4C, 0x53, 0x49]
}

/// Number of frames the writer emits for `n` plaintext bytes.
pub open spec fn chunk_count(n: nat) -> nat {
    if n == 0 {
        0
    } else {
        ((n - 1) as nat / BLOCK_SIZE as nat + 1) as nat
    }
}

/// Bytes of body the writer emits for `n` plaintext bytes.
pub open spec fn crypto_size(n: nat) -> nat {
    n + chunk_count(n) * TAG_LEN as nat
}

/// The eight big-endian bytes of `v`.
pub open spec fn be_bytes(v: u64) -> Seq<u8> {
    seq![
        (v >> 56u64) as u8,
        (v >> 48u64) as u8,
        (v >> 40u64) as u8,
        (v >> 32u64) as u8,
        (v >> 24u64) as u8,
        (v >> 16u64) as u8,
        (v >> 8u64) as u8,
        v as u8,
    ]
}

pub open spec fn header_len(version: u8) -> nat {
    if version == VERSION_1 {
        HEADER_V1_LEN as nat
    } else {
        HEADER_V2_LEN as nat
    }
}

/// `c` starts with a complete header of a known version.
pub open spec fn header_ok(c: Seq<u8>) -> bool {
    &&& c.len() >= 6
    &&& c.subrange(0, 5) == magic()
    &&& (c[5] == VERSION_1 || c[5] == VERSION_2)
    &&& c.len() >= header_len(c[5])
}

/// `c` stops before its header is complete.
pub open spec fn header_truncated(c: Seq<u8>) -> bool {
    ||| c.len() < 5
    ||| (c.subrange(0, 5) == magic() && c.len() < 6)
    ||| (c.subrange(0, 5) == magic() && (c[5] == VERSION_1 || c[5] == VERSION_2) && c.len()
        < header_len(c[5]))
}

pub open spec fn container_key(secret: Seq<u8>, c: Seq<u8>) -> Seq<u8> {
    derive_key(secret, c.subrange(6, 38))
}

/// The size record of `c` is the sealing of `d` under the first nonce.
pub open spec fn size_record_declares(secret: Seq<u8>, c: Seq<u8>, d: u64) -> bool {
    &&& c.len() >= HEADER_V2_LEN
    &&& c.subrange(38, 62) == aes_gcm_seal(
        container_key(secret, c),
        nonce_of(0, NONCE_LEN as nat),
        be_bytes(d),
    )
}

/// The header of a version 2 container under `salt` whose total length is
/// `total`: magic, version, salt and the sealed size record.
pub open spec fn v2_header(secret: Seq<u8>, salt: Seq<u8>, total: u64) -> Seq<u8> {
    magic() + seq![VERSION_2] + salt + aes_gcm_seal(
        derive_key(secret, salt),
        nonce_of(0, NONCE_LEN as nat),
        be_bytes(total),
    )
}

/// Full frame `j` of the body that starts at `h`.
pub open spec fn frame_at(c: Seq<u8>, h: int, j: int) -> Seq<u8> {
    c.subrange(h + j * FRAME_LEN, h + j * FRAME_LEN + FRAME_LEN)
}

/// Block `j` of a plaintext.
pub open spec fn block_at(p: Seq<u8>, j: int) -> Seq<u8> {
    p.subrange(j * BLOCK_SIZE, j * BLOCK_SIZE + BLOCK_SIZE)
}

/// Plaintext length carried by a body of `len` bytes.
pub open spec fn plain_len_of(len: nat) -> nat {
    let r = len % FRAME_LEN as nat;
    (len / FRAME_LEN as nat) * BLOCK_SIZE as nat + if r >= TAG_LEN { (r - TAG_LEN) as nat } else { 0 }
}

/// The body of `c` from offset `h` is a run of full frames, then possibly one
/// shorter frame, each the sealing of the matching piece of `plain` under the
/// counter value `first`, `first + 1`, ...
pub open spec fn body_opens_to(key: Seq<u8>, first: nat, c: Seq<u8>, h: nat, plain: Seq<u8>) -> bool {
    let len = (c.len() - h) as nat;
    let q = len / FRAME_LEN as nat;
    let r = len % FRAME_LEN as nat;
    &&& h <= c.len()
    &&& (r == 0 || r >= TAG_LEN)
    &&& plain.len() == plain_len_of(len)
    &&& forall|j: int|
        0 <= j < q ==> #[trigger] frame_at(c, h as int, j) == aes_gcm_seal(
            key,
            nonce_of((first + j) as nat, NONCE_LEN as nat),
            block_at(plain, j),
        )
    &&& r > 0 ==> c.subrange(h + q * FRAME_LEN, c.len() as int) == aes_gcm_seal(
        key,
        nonce_of(first + q, NONCE_LEN as nat),
        plain.subrange(q * BLOCK_SIZE, plain.len() as int),
    )
}

/// `c` is a container that decrypts to `plain` under `secret`.
pub open spec fn is_container(secret: Seq<u8>, c: Seq<u8>, plain: Seq<u8>) -> bool {
    &&& header_ok(c)
    &&& c.len() <= u64::MAX
    &&& c[5] == VERSION_2 ==> size_record_declares(secret, c, c.len() as u64)
    &&& body_opens_to(
        container_key(secret, c),
        if c[5] == VERSION_2 { 1 } else { 0 },
        c,
        header_len(c[5]),
        plain,
    )
}

/// Encodes `v` as eight big-endian bytes.
fn u64_to_be(v: u64) -> (r: Vec<u8>)
    ensures
        r@ == be_bytes(v),
{
    let r: Vec<u8> = vec![
        (v >> 56u64) as u8,
        (v >> 48u64) as u8,
        (v >> 40u64) as u8,
        (v >> 32u64) as u8,
        (v >> 24u64) as u8,
        (v >> 16u64) as u8,
        (v >> 8u64) as u8,
        v as u8,
    ];
    assert(r@ =~= be_bytes(v));
    r
}

/// Reads the big-endian u64 in the first eight bytes of `b`.
fn be_to_u64(b: &[u8]) -> (r: u64)
    requires
        b@.len() >= 8,
    ensures
        be_bytes(r) == b@.subrange(0, 8),
{
    let b0 = b[0];
    let b1 = b[1];
    let b2 = b[2];
    let b3 = b[3];
    let b4 = b[4];
    let b5 = b[5];
    let b6 = b[6];
    let b7 = b[7];
    let r: u64 = ((b0 as u64) << 56u64) | ((b1 as u64) << 48u64) | ((b2 as u64) << 40u64) | ((
    b3 as u64) << 32u64) | ((b4 as u64) << 24u64) | ((b5 as u64) << 16u64) | ((b6 as u64)
        << 8u64) | (b7 as u64);
    assert((r >> 56u64) as u8 == b0 && (r >> 48u64) as u8 == b1 && (r >> 40u64) as u8 == b2 && (r
        >> 32u64) as u8 == b3 && (r >> 24u64) as u8 == b4 && (r >> 16u64) as u8 == b5 && (r
        >> 8u64) as u8 == b6 && r as u8 == b7) by (bit_vector)
        requires
            r == ((b0 as u64) << 56u64) | ((b1 as u64) << 48u64) | ((b2 as u64) << 40u64) | ((
            b3 as u64) << 32u64) | ((b4 as u64) << 24u64) | ((b5 as u64) << 16u64) | ((
            b6 as u64) << 8u64) | (b7 as u64),
    ;
    assert(be_bytes(r) =~= b@.subrange(0, 8));
    r
}

/// Body bytes that the writer emits for `in_size` plaintext bytes.
pub fn crypto_data_size(in_size: usize) -> (r: usize)
    requires
        crypto_size(in_size as nat) <= usize::MAX,
    ensures
        r == crypto_size(in_size as nat),
{
    let nblock: usize = if in_size == 0 {
        0
    } else {
        (in_size - 1) / BLOCK_SIZE + 1
    };
    let tag_size = nblock * TAG_LEN;
    in_size + tag_size
}

/// 256^12 exceeds every counter value a container can reach.
proof fn lemma_pow256_12()
    ensures
        pow256(12) == 79228162514264337593543950336,
{
    reveal_with_fuel(pow256, 13);
}

/// Bytes of the last, short frame that carries `t` plaintext bytes (none for
/// zero bytes).
pub open spec fn tail_frame_len(t: nat) -> nat {
    if t > 0 {
        t + TAG_LEN as nat
    } else {
        0
    }
}

/// Body size and framing of `i` full blocks followed by `t` more bytes.
proof fn lemma_body_size(i: nat, t: nat)
    requires
        t < BLOCK_SIZE,
    ensures
        crypto_size(i * BLOCK_SIZE as nat + t) == i * FRAME_LEN as nat + tail_frame_len(t),
        (i * FRAME_LEN as nat + tail_frame_len(t)) / FRAME_LEN as nat == i,
        (i * FRAME_LEN as nat + tail_frame_len(t)) % FRAME_LEN as nat == tail_frame_len(t),
        plain_len_of(i * FRAME_LEN as nat + tail_frame_len(t)) == i * BLOCK_SIZE as nat + t,
{
    let n = i * BLOCK_SIZE as nat + t;
    let extra = tail_frame_len(t);
    if n > 0 {
        if t > 0 {
            assert((n - 1) as nat / BLOCK_SIZE as nat == i) by (nonlinear_arith)
                requires
                    n == i * 131072 + t,
                    0 < t < 131072,
            ;
        } else {
            assert((n - 1) as nat / BLOCK_SIZE as nat == i - 1) by (nonlinear_arith)
                requires
                    n == i * 131072,
                    i > 0,
            ;
        }
    }
    assert((i * FRAME_LEN as nat + extra) / FRAME_LEN as nat == i) by (nonlinear_arith)
        requires
            extra < 131088,
    ;
    assert((i * FRAME_LEN as nat + extra) % FRAME_LEN as nat == extra) by (nonlinear_arith)
        requires
            extra < 131088,
    ;
}

/// The writer's body size and the reader's framing agree: a body of
/// `crypto_size(n)` bytes is read as frames carrying exactly `n` plaintext
/// bytes, and never ends in a frame too short to hold a tag.
pub proof fn lemma_writer_layout_is_readable(n: nat)
    ensures
        plain_len_of(crypto_size(n)) == n,
        crypto_size(n) % FRAME_LEN as nat == 0 || crypto_size(n) % FRAME_LEN as nat > TAG_LEN,
{
    let i = n / BLOCK_SIZE as nat;
    let t = n % BLOCK_SIZE as nat;
    assert(n == i * BLOCK_SIZE as nat + t) by (nonlinear_arith)
        requires
            i == n / 131072,
            t == n % 131072,
    ;
    lemma_body_size(i, t);
}

/// Seals `plain[start..start + len]` under the next seal counter value and
/// appends the frame to `out`.
pub fn seal_frame(crypto: &mut Crypto, plain: &[u8], start: usize, len: usize, out: &mut Vec<u8>)
    requires
        old(crypto).wf(),
        start + len <= plain@.len(),
        len <= BLOCK_SIZE,
        old(out)@.len() + len + TAG_LEN <= usize::MAX,
    ensures
        final(crypto).wf(),
        final(crypto).key() == old(crypto).key(),
        final(crypto).seal_nonce() == incr_spec(old(crypto).seal_nonce()),
        final(out)@.len() == old(out)@.len() + len + TAG_LEN,
        final(out)@ == old(out)@ + aes_gcm_seal(
            old(crypto).key(),
            old(crypto).seal_nonce(),
            plain@.subrange(start as int, start + len),
        ),
{
    let plain_len = plain.len();
    assert(start + len <= plain_len);
    let mut frame = slice_to_vec(slice_subrange(plain, start, start + len));
    let mut k: usize = 0;
    while k < TAG_LEN
        invariant
            0 <= k <= TAG_LEN,
            frame@.len() == len + k,
            frame@.subrange(0, len as int) == plain@.subrange(start as int, start + len),
        decreases TAG_LEN - k,
    {
        let ghost prev = frame@;
        frame.push(0u8);
        assert(frame@.subrange(0, len as int) =~= prev.subrange(0, len as int));
        k = k + 1;
    }
    let r = crypto.encrypt(frame.as_mut_slice(), len);
    assert(r is Ok);
    assert(frame@ =~= frame@.subrange(0, (len + TAG_LEN) as int));
    out.extend_from_slice(frame.as_slice());
    assert(final(out)@ =~= old(out)@ + frame@);
}

proof fn lemma_frame_split(i: nat, rem: nat)
    requires
        rem < FRAME_LEN,
    ensures
        (i * FRAME_LEN as nat + rem) / FRAME_LEN as nat == i,
        (i * FRAME_LEN as nat + rem) % FRAME_LEN as nat == rem,
{
    assert((i * FRAME_LEN as nat + rem) / FRAME_LEN as nat == i) by (nonlinear_arith)
        requires
            rem < 131088,
    ;
    assert((i * FRAME_LEN as nat + rem) % FRAME_LEN as nat == rem) by (nonlinear_arith)
        requires
            rem < 131088,
    ;
}

proof fn lemma_block_below(j: int, i: int)
    requires
        0 <= j < i,
    ensures
        j * BLOCK_SIZE + BLOCK_SIZE <= i * BLOCK_SIZE,
        j * FRAME_LEN + FRAME_LEN <= i * FRAME_LEN,
{
    assert(j * BLOCK_SIZE + BLOCK_SIZE <= i * BLOCK_SIZE) by (nonlinear_arith)
        requires
            0 <= j < i,
    ;
    assert(j * FRAME_LEN + FRAME_LEN <= i * FRAME_LEN) by (nonlinear_arith)
        requires
            0 <= j < i,
    ;
}

proof fn lemma_frames_left(x: nat, i: nat)
    requires
        x >= (i + 1) * FRAME_LEN,
    ensures
        x / FRAME_LEN as nat >= i + 1,
{
    assert(x / FRAME_LEN as nat >= i + 1) by (nonlinear_arith)
        requires
            x >= (i + 1) * 131088,
    ;
}

proof fn lemma_be_bytes_injective(a: u64, b: u64)
    requires
        be_bytes(a) == be_bytes(b),
    ensures
        a == b,
{
    assert(be_bytes(a)[0] == be_bytes(b)[0]);
    assert(be_bytes(a)[1] == be_bytes(b)[1]);
    assert(be_bytes(a)[2] == be_bytes(b)[2]);
    assert(be_bytes(a)[3] == be_bytes(b)[3]);
    assert(be_bytes(a)[4] == be_bytes(b)[4]);
    assert(be_bytes(a)[5] == be_bytes(b)[5]);
    assert(be_bytes(a)[6] == be_bytes(b)[6]);
    assert(be_bytes(a)[7] == be_bytes(b)[7]);
    assert(a == b) by (bit_vector)
        requires
            (a >> 56u64) as u8 == (b >> 56u64) as u8,
            (a >> 48u64) as u8 == (b >> 48u64) as u8,
            (a >> 40u64) as u8 == (b >> 40u64) as u8,
            (a >> 32u64) as u8 == (b >> 32u64) as u8,
            (a >> 24u64) as u8 == (b >> 24u64) as u8,
            (a >> 16u64) as u8 == (b >> 16u64) as u8,
            (a >> 8u64) as u8 == (b >> 8u64) as u8,
            a as u8 == b as u8,
    ;
}

/// Opens the frame `c[start..end]` under the next open counter value and
/// appends its plaintext to `out`.
pub fn open_frame(crypto: &mut Crypto, c: &[u8], start: usize, end: usize, out: &mut Vec<u8>) -> (r: Result<(), Error>)
    requires
        old(crypto).wf(),
        start <= end <= c@.len(),
        end - start <= FRAME_LEN,
        old(out)@.len() + FRAME_LEN <= usize::MAX,
    ensures
        final(crypto).wf(),
        final(crypto).key() == old(crypto).key(),
        r is Ok ==> {
            &&& end - start >= TAG_LEN
            &&& final(out)@.len() + TAG_LEN == old(out)@.len() + (end - start)
            &&& final(out)@.subrange(0, old(out)@.len() as int) == old(out)@
            &&& c@.subrange(start as int, end as int) == aes_gcm_seal(
                old(crypto).key(),
                old(crypto).open_nonce(),
                final(out)@.subrange(old(out)@.len() as int, final(out)@.len() as int),
            )
            &&& final(crypto).open_nonce() == incr_spec(old(crypto).open_nonce())
        },
        forall|p: Seq<u8>|
            c@.subrange(start as int, end as int) == #[trigger] aes_gcm_seal(
                old(crypto).key(),
                old(crypto).open_nonce(),
                p,
            ) && p.len() <= BLOCK_SIZE ==> (r is Ok && final(out)@ == old(out)@ + p),
        r matches Err(e) ==> e == Error::Crypto(crate::crypto::Error::Open),
{
    let mut frame = slice_to_vec(slice_subrange(c, start, end));
    let n = match crypto.decrypt(frame.as_mut_slice()) {
        Ok(n) => n,
        Err(e) => return Err(Error::Crypto(e)),
    };
    let ghost prev = out@;
    out.extend_from_slice(slice_subrange(frame.as_slice(), 0, n));
    assert(out@.subrange(0, prev.len() as int) =~= prev);
    assert(out@.subrange(prev.len() as int, out@.len() as int) =~= frame@.subrange(0, n as int));
    assert forall|p: Seq<u8>|
        c@.subrange(start as int, end as int) == #[trigger] aes_gcm_seal(
            old(crypto).key(),
            old(crypto).open_nonce(),
            p,
        ) && p.len() <= BLOCK_SIZE implies final(out)@ == old(out)@ + p by {
        assert(out@ =~= prev + p);
    }
    Ok(())
}

/// Opens the body of `c` that starts at `h`, frame by frame, with the open
/// counter starting at `first`.
fn open_body(crypto: &mut Crypto, c: &[u8], h: usize, Ghost(first): Ghost<nat>) -> (r: Result<Vec<u8>, Error>)
    requires
        old(crypto).wf(),
        h <= c@.len(),
        first <= 1,
        old(crypto).open_nonce() == nonce_of(first, NONCE_LEN as nat),
    ensures
        r matches Ok(p) ==> body_opens_to(old(crypto).key(), first, c@, h as nat, p@),
        forall|p: Seq<u8>|
            #[trigger] body_opens_to(old(crypto).key(), first, c@, h as nat, p) ==> (r matches Ok(
                q,
            ) && q@ == p),
        r matches Err(e) ==> e == Error::Crypto(crate::crypto::Error::Open),
{
    let ghost key = crypto.key();
    let len = c.len();
    let mut out: Vec<u8> = Vec::new();
    let mut pos: usize = h;
    let ghost mut i: nat = 0;
    proof {
        lemma_pow256_12();
    }
    while len - pos >= FRAME_LEN
        invariant
            len == c@.len(),
            h <= pos <= len,
            pos == h + i * FRAME_LEN,
            out@.len() == i * BLOCK_SIZE,
            first <= 1,
            crypto.wf(),
            crypto.key() == key,
            key == old(crypto).key(),
            crypto.open_nonce() == nonce_of(first + i, NONCE_LEN as nat),
            pow256(12) == 79228162514264337593543950336,
            forall|j: int|
                0 <= j < i ==> #[trigger] frame_at(c@, h as int, j) == aes_gcm_seal(
                    key,
                    nonce_of((first + j) as nat, NONCE_LEN as nat),
                    block_at(out@, j),
                ),
            forall|p: Seq<u8>|
                #[trigger] body_opens_to(key, first, c@, h as nat, p) ==> out@ == p.subrange(
                    0,
                    i * BLOCK_SIZE,
                ),
        decreases len - pos,
    {
        proof {
            lemma_frames_left((len - h) as nat, i);
        }
        let ghost prev = out@;
        let res = open_frame(crypto, c, pos, pos + FRAME_LEN, &mut out);
        proof {
            assert(c@.subrange(pos as int, pos + FRAME_LEN) =~= frame_at(c@, h as int, i as int));
            assert forall|p: Seq<u8>| #[trigger] body_opens_to(key, first, c@, h as nat, p) implies (res is Ok && out@ == p.subrange(0, (i + 1) * BLOCK_SIZE)) by {
                assert(frame_at(c@, h as int, i as int) == aes_gcm_seal(
                    key,
                    nonce_of((first + i) as nat, NONCE_LEN as nat),
                    block_at(p, i as int),
                ));
                assert(p.len() >= (i + 1) * BLOCK_SIZE) by (nonlinear_arith)
                    requires
                        p.len() >= ((len - h) as nat / 131088) * 131072,
                        (len - h) as nat / 131088 >= i + 1,
                ;
                assert(prev + block_at(p, i as int) =~= p.subrange(0, (i + 1) * BLOCK_SIZE));
            }
        }
        if let Err(_) = res {
            proof {
                assert forall|p: Seq<u8>| #[trigger] body_opens_to(key, first, c@, h as nat, p) implies false by {}
            }
            return Err(Error::Crypto(crate::crypto::Error::Open));
        }
        proof {
            assert(block_at(out@, i as int) =~= out@.subrange(prev.len() as int, out@.len() as int));
            assert forall|j: int| 0 <= j < i + 1 implies #[trigger] frame_at(c@, h as int, j) == aes_gcm_seal(
                key,
                nonce_of((first + j) as nat, NONCE_LEN as nat),
                block_at(out@, j),
            ) by {
                if j < i {
                    lemma_block_below(j, i as int);
                    assert(block_at(out@, j) =~= block_at(prev, j));
                }
            }
            lemma_incr_nonce_of(first + i, NONCE_LEN as nat);
            i = i + 1;
        }
        pos = pos + FRAME_LEN;
    }
    let rem = len - pos;
    proof {
        lemma_frame_split(i, rem as nat);
    }
    let ghost prev = out@;
    if rem > 0 {
        let res = open_frame(crypto, c, pos, len, &mut out);
        proof {
            assert forall|p: Seq<u8>| #[trigger] body_opens_to(key, first, c@, h as nat, p) implies (res is Ok && out@ == p) by {
                let blen = (len - h) as nat;
                assert(blen / FRAME_LEN as nat == i);
                assert(blen % FRAME_LEN as nat == rem);
                assert(rem >= TAG_LEN);
                assert(p.len() == i * BLOCK_SIZE + rem - TAG_LEN);
                let tail = p.subrange(i * BLOCK_SIZE, p.len() as int);
                assert(c@.subrange(pos as int, len as int) == aes_gcm_seal(
                    key,
                    nonce_of(first + i, NONCE_LEN as nat),
                    tail,
                ));
                assert(tail.len() <= BLOCK_SIZE);
                assert(prev == p.subrange(0, i * BLOCK_SIZE));
                assert(p.subrange(0, i * BLOCK_SIZE) + tail =~= p);
            }
        }
        if let Err(_) = res {
            proof {
                assert forall|p: Seq<u8>| #[trigger] body_opens_to(key, first, c@, h as nat, p) implies false by {}
            }
            return Err(Error::Crypto(crate::crypto::Error::Open));
        }
        proof {
            assert(out@.subrange(0, prev.len() as int) == prev);
            assert(out@.len() == i * BLOCK_SIZE + rem - TAG_LEN);
            assert forall|j: int| 0 <= j < i implies #[trigger] frame_at(c@, h as int, j) == aes_gcm_seal(
                key,
                nonce_of((first + j) as nat, NONCE_LEN as nat),
                block_at(out@, j),
            ) by {
                lemma_block_below(j, i as int);
                assert forall|k: int| 0 <= k < BLOCK_SIZE implies block_at(out@, j)[k] == block_at(prev, j)[k] by {
                    assert(out@.subrange(0, prev.len() as int)[j * BLOCK_SIZE + k] == prev[j * BLOCK_SIZE + k]);
                }
                assert(block_at(out@, j) =~= block_at(prev, j));
            }
        }
    } else {
        proof {
            assert forall|p: Seq<u8>| #[trigger] body_opens_to(key, first, c@, h as nat, p) implies out@ == p by {
                assert(p.subrange(0, i * BLOCK_SIZE) =~= p);
            }
        }
    }
    proof {
        let blen = (len - h) as nat;
        assert(blen / FRAME_LEN as nat == i);
        assert(blen % FRAME_LEN as nat == rem);
        assert(out@.len() == plain_len_of(blen));
        if rem > 0 {
            assert(c@.subrange(h + i * FRAME_LEN, c@.len() as int) == aes_gcm_seal(
                key,
                nonce_of(first + i, NONCE_LEN as nat),
                out@.subrange(i * BLOCK_SIZE, out@.len() as int),
            ));
        }
        assert(body_opens_to(key, first, c@, h as nat, out@));
    }
    Ok(out)
}

/// Encrypts and decrypts whole containers under one secret.
#[derive(Clone)]
pub struct FileCrypt {
    secret: Vec<u8>,
}

impl FileCrypt {
    pub closed spec fn secret(&self) -> Seq<u8> {
        self.secret@
    }

    pub fn new(secret: &[u8]) -> (r: FileCrypt)
        ensures
            r.secret() == secret@,
    {
        FileCrypt { secret: slice_to_vec(secret) }
    }

    /// Starts a version 2 container for `plain_len` plaintext bytes under
    /// `salt`: returns the engine, whose seal counter is then at 1, and the
    /// 62 header bytes (magic, version, salt and the sealed total length).
    /// The frames follow through `seal_frame`, one block at a time.
    pub fn begin_encrypt(&self, salt: &Salt, plain_len: usize) -> (r: (Crypto, Vec<u8>))
        requires
            salt@.len() == SALT_LEN,
            HEADER_V2_LEN + crypto_size(plain_len as nat) <= usize::MAX,
        ensures
            r.0.wf(),
            r.0.key() == derive_key(self.secret(), salt@),
            r.0.seal_nonce() == nonce_of(1, NONCE_LEN as nat),
            r.1@.len() == HEADER_V2_LEN,
            r.1@ == v2_header(
                self.secret(),
                salt@,
                (HEADER_V2_LEN + crypto_size(plain_len as nat)) as u64,
            ),
    {
        let mut crypto = Crypto::new(self.secret.as_slice(), salt).unwrap();
        let ghost key = crypto.key();
        let dest_size = HEADER_V2_LEN + crypto_data_size(plain_len);

        let mut out: Vec<u8> = Vec::new();
        out.push(0x4Bu8);
        out.push(0x45u8);
        out.push(0x4Cu8);
        out.push(0x53u8);
        out.push(0x49u8);
        out.push(VERSION_2);
        out.extend_from_slice(salt.get_bytes());
        let ghost head = out@;

        let size = u64_to_be(dest_size as u64);
        proof {
            lemma_pow256_12();
            crate::crypto::lemma_nonce_of_len(0, NONCE_LEN as nat);
        }
        seal_frame(&mut crypto, size.as_slice(), 0, 8, &mut out);
        assert(size@.subrange(0, 8) =~= size@);
        assert(out@ =~= v2_header(self.secret@, salt@, dest_size as u64));
        proof {
            lemma_incr_nonce_of(0, NONCE_LEN as nat);
        }
        (crypto, out)
    }

    /// Writes the version 2 container for `plain` under `salt`.
    pub fn encrypt_with_salt(&self, salt: &Salt, plain: &[u8]) -> (r: Vec<u8>)
        requires
            salt@.len() == SALT_LEN,
            HEADER_V2_LEN + crypto_size(plain@.len()) <= usize::MAX,
        ensures
            r@.len() == HEADER_V2_LEN + crypto_size(plain@.len()),
            r@[5] == VERSION_2,
            r@.subrange(0, 62) == v2_header(self.secret(), salt@, r@.len() as u64),
            r@.subrange(6, 38) == salt@,
            is_container(self.secret(), r@, plain@),
    {
        let n = plain.len();
        let (mut crypto, mut out) = self.begin_encrypt(salt, n);
        let ghost key = crypto.key();
        let ghost head2 = out@;
        proof {
            lemma_pow256_12();
            assert(out@.subrange(0, 62) =~= head2);
        }

        let mut pos: usize = 0;
        let ghost mut i: nat = 0;
        while n - pos >= BLOCK_SIZE
            invariant
                n == plain@.len(),
                HEADER_V2_LEN + crypto_size(n as nat) <= usize::MAX,
                pos == i * BLOCK_SIZE,
                pos <= n,
                out@.len() == HEADER_V2_LEN + i * FRAME_LEN,
                head2.len() == HEADER_V2_LEN,
                out@.subrange(0, 62) == head2,
                crypto.wf(),
                crypto.key() == key,
                crypto.seal_nonce() == nonce_of(1 + i, NONCE_LEN as nat),
                pow256(12) == 79228162514264337593543950336,
                forall|j: int|
                    0 <= j < i ==> #[trigger] frame_at(out@, 62, j) == aes_gcm_seal(
                        key,
                        nonce_of((1 + j) as nat, NONCE_LEN as nat),
                        block_at(plain@, j),
                    ),
            decreases n - pos,
        {
            proof {
                lemma_body_size(i + 1, 0);
                assert(crypto_size(n as nat) >= crypto_size(((i + 1) * BLOCK_SIZE) as nat)) by {
                    assert(n >= (i + 1) * BLOCK_SIZE);
                    assert(chunk_count(n as nat) >= i + 1) by (nonlinear_arith)
                        requires
                            n >= (i + 1) * 131072,
                            chunk_count(n as nat) == ((n - 1) as nat / 131072 + 1) as nat,
                    ;
                }
            }
            let ghost prev = out@;
            seal_frame(&mut crypto, plain, pos, BLOCK_SIZE, &mut out);
            proof {
                assert(plain@.subrange(pos as int, pos + BLOCK_SIZE) =~= block_at(plain@, i as int));
                assert(frame_at(out@, 62, i as int) =~= aes_gcm_seal(
                    key,
                    nonce_of((1 + i) as nat, NONCE_LEN as nat),
                    block_at(plain@, i as int),
                ));
                assert forall|j: int| 0 <= j < i implies #[trigger] frame_at(out@, 62, j) == frame_at(prev, 62, j) by {
                    assert(frame_at(out@, 62, j) =~= frame_at(prev, 62, j));
                }
                assert(out@.subrange(0, 62) =~= prev.subrange(0, 62));
                lemma_incr_nonce_of(1 + i, NONCE_LEN as nat);
                i = i + 1;
            }
            pos = pos + BLOCK_SIZE;
        }
        let t = n - pos;
        proof {
            lemma_body_size(i, t as nat);
        }
        let ghost prev = out@;
        if t > 0 {
            seal_frame(&mut crypto, plain, pos, t, &mut out);
            assert(out@.subrange(0, 62) =~= prev.subrange(0, 62));
            assert forall|j: int| 0 <= j < i implies #[trigger] frame_at(out@, 62, j) == frame_at(prev, 62, j) by {
                assert(frame_at(out@, 62, j) =~= frame_at(prev, 62, j));
            }
            assert(out@.subrange(62 + i * FRAME_LEN, out@.len() as int) =~= aes_gcm_seal(
                key,
                nonce_of((1 + i) as nat, NONCE_LEN as nat),
                plain@.subrange(i * BLOCK_SIZE, n as int),
            ));
        }
        proof {
            assert(out@.subrange(0, 5) =~= head2.subrange(0, 5));
            assert(out@.subrange(6, 38) =~= head2.subrange(6, 38));
            assert(out@.subrange(38, 62) =~= head2.subrange(38, 62));
            assert(head2.subrange(0, 5) =~= magic());
            assert(head2.subrange(6, 38) =~= salt@);
            assert(head2.subrange(38, 62) =~= aes_gcm_seal(key, nonce_of(0, NONCE_LEN as nat), be_bytes(out@.len() as u64)));
            assert(out@[5] == head2[5]);
            assert(container_key(self.secret@, out@) == key);
        }
        out
    }

    /// Writes a version 2 container for `plain` under a fresh random salt.
    /// Everything after the draw is `encrypt_with_salt`.
    pub fn encrypt(&mut self, plain: &[u8]) -> (r: Result<Vec<u8>, Error>)
        requires
            HEADER_V2_LEN + crypto_size(plain@.len()) <= usize::MAX,
        ensures
            *final(self) == *old(self),
            r matches Ok(c) ==> {
                &&& c@.len() == HEADER_V2_LEN + crypto_size(plain@.len())
                &&& c@[5] == VERSION_2
                &&& is_container(old(self).secret(), c@, plain@)
                &&& c@.subrange(0, 62) == v2_header(old(self).secret(), c@.subrange(6, 38), c@.len() as u64)
            },
            r matches Err(e) ==> e == Error::Crypto(crate::crypto::Error::GenSalt),
    {
        let salt = match Salt::new() {
            Ok(s) => s,
            Err(e) => return Err(Error::Crypto(e)),
        };
        Ok(self.encrypt_with_salt(&salt, plain))
    }

    /// Reads the header of a container of `file_len` bytes whose first
    /// `min(file_len, 62)` bytes are `head`: checks magic and version, derives
    /// the key from the salt and, for version 2, checks that the size record
    /// declares `file_len`. Returns the engine, with its open counter at the
    /// first frame, and the header length; the frames follow through
    /// `open_frame`.
    pub fn begin_decrypt(&self, head: &[u8], file_len: usize) -> (r: Result<(Crypto, usize), Error>)
        requires
            head@.len() == if file_len < HEADER_V2_LEN { file_len } else { HEADER_V2_LEN },
        ensures
            header_truncated(head@) <==> r == Err::<(Crypto, usize), Error>(Error::Truncated),
            (head@.len() >= 5 && head@.subrange(0, 5) != magic()) <==> r == Err::<
                (Crypto, usize),
                Error,
            >(Error::MagicMismatch),
            (head@.len() >= 6 && head@.subrange(0, 5) == magic() && head@[5] != VERSION_1
                && head@[5] != VERSION_2) <==> r == Err::<(Crypto, usize), Error>(
                Error::UnsupportedVersion(head@[5]),
            ),
            r matches Err(Error::SizeMismatch(actual, declared)) ==> {
                &&& header_ok(head@)
                &&& head@[5] == VERSION_2
                &&& actual == file_len
                &&& declared != actual
                &&& size_record_declares(self.secret(), head@, declared)
            },
            forall|d: u64|
                header_ok(head@) && head@[5] == VERSION_2 && #[trigger] size_record_declares(
                    self.secret(),
                    head@,
                    d,
                ) && d != file_len ==> r == Err::<(Crypto, usize), Error>(
                    Error::SizeMismatch(file_len as u64, d),
                ),
            r is Ok <==> (header_ok(head@) && (head@[5] == VERSION_2 ==> size_record_declares(
                self.secret(),
                head@,
                file_len as u64,
            ))),
            r matches Ok((k, h)) ==> {
                &&& k.wf()
                &&& h == header_len(head@[5])
                &&& k.key() == container_key(self.secret(), head@)
                &&& k.open_nonce() == nonce_of(
                    if head@[5] == VERSION_2 { 1 } else { 0 },
                    NONCE_LEN as nat,
                )
            },
            r matches Err(e) ==> (e == Error::Truncated || e == Error::MagicMismatch || e
                is UnsupportedVersion || e is SizeMismatch || e == Error::Crypto(
                crate::crypto::Error::Open,
            )),
    {
        let len = head.len();
        if len < MAGIC_LEN {
            return Err(Error::Truncated);
        }
        if !(head[0] == 0x4Bu8 && head[1] == 0x45u8 && head[2] == 0x4Cu8 && head[3] == 0x53u8
            && head[4] == 0x49u8) {
            proof {
                if head@.subrange(0, 5) == magic() {
                    assert(head@.subrange(0, 5)[0] == head@[0]);
                    assert(head@.subrange(0, 5)[1] == head@[1]);
                    assert(head@.subrange(0, 5)[2] == head@[2]);
                    assert(head@.subrange(0, 5)[3] == head@[3]);
                    assert(head@.subrange(0, 5)[4] == head@[4]);
                }
            }
            return Err(Error::MagicMismatch);
        }
        assert(head@.subrange(0, 5) =~= magic());
        if len < 6 {
            return Err(Error::Truncated);
        }
        let version = head[5];
        if version != VERSION_1 && version != VERSION_2 {
            return Err(Error::UnsupportedVersion(version));
        }
        let header = if version == VERSION_1 {
            HEADER_V1_LEN
        } else {
            HEADER_V2_LEN
        };
        if len < header {
            return Err(Error::Truncated);
        }
        let salt = match Salt::from_bytes(slice_subrange(head, 6, 6 + SALT_LEN)) {
            Ok(s) => s,
            Err(e) => return Err(Error::Crypto(e)),
        };
        let mut crypto = match Crypto::new(self.secret.as_slice(), &salt) {
            Ok(k) => k,
            Err(e) => return Err(Error::Crypto(e)),
        };
        let ghost key = crypto.key();
        assert(key == container_key(self.secret@, head@));
        proof {
            lemma_pow256_12();
            crate::crypto::lemma_nonce_of_len(0, NONCE_LEN as nat);
        }
        if version == VERSION_2 {
            let mut size = slice_to_vec(slice_subrange(head, HEADER_V1_LEN, HEADER_V2_LEN));
            let ghost rec = size@;
            assert(rec == head@.subrange(38, 62));
            let n = match crypto.decrypt(size.as_mut_slice()) {
                Ok(n) => n,
                Err(e) => {
                    proof {
                        if size_record_declares(self.secret@, head@, file_len as u64) {
                            assert(rec == aes_gcm_seal(key, nonce_of(0, NONCE_LEN as nat), be_bytes(file_len as u64)));
                        }
                        assert forall|d: u64| #[trigger] size_record_declares(self.secret@, head@, d) implies false by {
                            assert(rec == aes_gcm_seal(key, nonce_of(0, NONCE_LEN as nat), be_bytes(d)));
                        }
                    }
                    return Err(Error::Crypto(e));
                },
            };
            let declared = be_to_u64(size.as_slice());
            assert(size@.subrange(0, 8) =~= size@.subrange(0, n as int));
            assert(size_record_declares(self.secret@, head@, declared));
            proof {
                assert forall|d: u64| #[trigger] size_record_declares(self.secret@, head@, d) implies d == declared by {
                    lemma_be_bytes_injective(d, declared);
                }
            }
            if declared != file_len as u64 {
                return Err(Error::SizeMismatch(file_len as u64, declared));
            }
            proof {
                lemma_incr_nonce_of(0, NONCE_LEN as nat);
            }
        }
        Ok((crypto, header))
    }

    /// Reads a version 1 or version 2 container back to its plaintext.
    ///
    /// Every frame must open under the counter value that its position gives;
    /// a version 2 container must also declare its own length in its size
    /// record. So a container cut short or grown fails, as does one under
    /// another secret.
    pub fn decrypt(&mut self, c: &[u8]) -> (r: Result<Vec<u8>, Error>)
        ensures
            *final(self) == *old(self),
            header_truncated(c@) <==> r == Err::<Vec<u8>, Error>(Error::Truncated),
            (c@.len() >= 5 && c@.subrange(0, 5) != magic()) <==> r == Err::<Vec<u8>, Error>(
                Error::MagicMismatch,
            ),
            (c@.len() >= 6 && c@.subrange(0, 5) == magic() && c@[5] != VERSION_1 && c@[5]
                != VERSION_2) <==> r == Err::<Vec<u8>, Error>(Error::UnsupportedVersion(c@[5])),
            r matches Err(Error::SizeMismatch(actual, declared)) ==> {
                &&& header_ok(c@)
                &&& c@[5] == VERSION_2
                &&& actual == c@.len()
                &&& declared != actual
                &&& size_record_declares(old(self).secret(), c@, declared)
            },
            forall|d: u64|
                header_ok(c@) && c@[5] == VERSION_2 && #[trigger] size_record_declares(
                    old(self).secret(),
                    c@,
                    d,
                ) && d != c@.len() ==> r == Err::<Vec<u8>, Error>(
                    Error::SizeMismatch(c@.len() as u64, d),
                ),
            header_ok(c@) && c@[5] == VERSION_2 && size_record_declares(
                old(self).secret(),
                c@,
                c@.len() as u64,
            ) ==> !(r matches Err(Error::SizeMismatch(_, _))),
            r matches Ok(p) ==> is_container(old(self).secret(), c@, p@),
            forall|p: Seq<u8>|
                #[trigger] is_container(old(self).secret(), c@, p) ==> (r matches Ok(q) && q@
                    == p),
            forall|full: Seq<u8>, p: Seq<u8>|
                #[trigger] is_container(old(self).secret(), full, p) && full[5] == VERSION_2
                    && c@.len() < full.len() && c@ == full.subrange(0, c@.len() as int) ==> r
                    == Err::<Vec<u8>, Error>(
                    if c@.len() >= HEADER_V2_LEN {
                        Error::SizeMismatch(c@.len() as u64, full.len() as u64)
                    } else {
                        Error::Truncated
                    },
                ),
            r matches Err(e) ==> (e == Error::Truncated || e == Error::MagicMismatch || e
                is UnsupportedVersion || e is SizeMismatch || e == Error::Crypto(
                crate::crypto::Error::Open,
            )),
    {
        let len = c.len();
        let hlen = if len < HEADER_V2_LEN {
            len
        } else {
            HEADER_V2_LEN
        };
        let head = slice_subrange(c, 0, hlen);
        let ghost h = head@;
        proof {
            if len >= 5 {
                assert(h.subrange(0, 5) =~= c@.subrange(0, 5));
            }
            if len >= 6 {
                assert(h[5] == c@[5]);
            }
            if len >= 38 {
                assert(h.subrange(6, 38) =~= c@.subrange(6, 38));
            }
            if len >= 62 {
                assert(h.subrange(38, 62) =~= c@.subrange(38, 62));
            }
            assert(header_truncated(h) == header_truncated(c@));
            assert(header_ok(h) == header_ok(c@));
            assert forall|d: u64| #[trigger] size_record_declares(self.secret@, h, d) implies size_record_declares(self.secret@, c@, d) by {}
            assert forall|d: u64| #[trigger] size_record_declares(self.secret@, c@, d) implies size_record_declares(self.secret@, h, d) by {}
            assert forall|full: Seq<u8>, p: Seq<u8>|
                #[trigger] is_container(self.secret@, full, p) && full[5] == VERSION_2 && c@.len()
                    < full.len() && c@ == full.subrange(0, c@.len() as int) implies (if c@.len() >= HEADER_V2_LEN {
                        header_ok(c@) && c@[5] == VERSION_2 && size_record_declares(self.secret@, c@, full.len() as u64)
                            && full.len() as u64 != c@.len()
                    } else {
                        header_truncated(c@)
                    }) by {
                if c@.len() >= 5 {
                    assert(c@.subrange(0, 5) =~= full.subrange(0, 5));
                }
                if c@.len() >= 6 {
                    assert(c@[5] == full[5]);
                }
                if c@.len() >= HEADER_V2_LEN {
                    assert(c@.subrange(6, 38) =~= full.subrange(6, 38));
                    assert(c@.subrange(38, 62) =~= full.subrange(38, 62));
                }
            }
        }
        let (mut crypto, header) = match self.begin_decrypt(head, len) {
            Ok(x) => x,
            Err(e) => return Err(e),
        };
        let ghost first: nat = if c@[5] == VERSION_2 { 1 } else { 0 };
        let res = open_body(&mut crypto, c, header, Ghost(first));
        match res {
            Ok(p) => Ok(p),
            Err(e) => Err(e),
        }
    }
}

} // verus!
