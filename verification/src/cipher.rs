//! Decryption of the protected code section: AES-256, first on the one block
//! that holds the initialization vector, then in cipher block chaining mode
//! on the code. The cipher is that of the `aes` and `cbc` crates.

use crate::error::UnpackError;
use aes::cipher::generic_array::GenericArray;
use aes::cipher::{BlockDecryptMut, KeyInit, KeyIvInit};
use cbc::cipher::block_padding::NoPadding;
use vstd::prelude::*;

verus! {

/// `block_padding::UnpadError`, which the ciphers give for a length that is
/// no whole number of blocks.
#[verifier::external_type_specification]
#[verifier::external_body]
pub struct ExUnpadError(cbc::cipher::block_padding::UnpadError);

/// Size of a cipher block, and of the initialization vector.
pub const BLOCK_SIZE: usize = 16;

/// Size of the key.
pub const KEY_SIZE: usize = 32;

/// The block that AES-256 decrypts `block` to under `key`.
pub uninterp spec fn aes256_block_decrypted(key: Seq<u8>, block: Seq<u8>) -> Seq<u8>;

/// The bytes of `a`, each XOR the byte of `b` at its place.
pub open spec fn xor_bytes(a: Seq<u8>, b: Seq<u8>) -> Seq<u8> {
    Seq::new(a.len(), |i: int| a[i] ^ b[i])
}

/// Block `i` of `data`.
pub open spec fn block_at(data: Seq<u8>, i: int) -> Seq<u8> {
    data.subrange(BLOCK_SIZE * i, BLOCK_SIZE * i + BLOCK_SIZE)
}

/// Block `i` of what `data` decrypts to in cipher block chaining mode: the
/// block decrypted, XOR the block before it as it was, or the initialization
/// vector for the first.
pub open spec fn cbc_plain_block(key: Seq<u8>, iv: Seq<u8>, data: Seq<u8>, i: int) -> Seq<u8> {
    xor_bytes(
        aes256_block_decrypted(key, block_at(data, i)),
        if i == 0 {
            iv
        } else {
            block_at(data, i - 1)
        },
    )
}

/// What `data`, a whole number of blocks, decrypts to in cipher block
/// chaining mode under `key` and `iv`.
pub open spec fn cbc_plain(key: Seq<u8>, iv: Seq<u8>, data: Seq<u8>) -> Seq<u8> {
    Seq::new(
        data.len(),
        |j: int| cbc_plain_block(key, iv, data, j / BLOCK_SIZE as int)[j % BLOCK_SIZE as int],
    )
}

/// `decrypt_padded_mut` of `aes::Aes256` without padding, on one block: the
/// block decrypted.
#[verifier::external_body]
fn aes256_decrypt_block(key: &[u8], block: &[u8]) -> (r: Result<Vec<u8>, cbc::cipher::block_padding::UnpadError>)
    requires
        key@.len() == KEY_SIZE,
        block@.len() == BLOCK_SIZE,
    ensures
        r is Ok,
        r->Ok_0@ == aes256_block_decrypted(key@, block@),
        r->Ok_0@.len() == BLOCK_SIZE,
{
    let mut buf = block.to_vec();
    aes::Aes256::new(GenericArray::from_slice(key)).decrypt_padded_mut::<NoPadding>(&mut buf).map(
        |plain| plain.to_vec(),
    )
}

/// `decrypt_padded_mut` of `cbc::Decryptor<aes::Aes256>` without padding: a
/// whole number of blocks is decrypted in cipher block chaining mode, block
/// by block with AES-256; any other length is an error.
#[verifier::external_body]
fn aes256_cbc_decrypt(key: &[u8], iv: &[u8], data: &[u8]) -> (r: Result<
    Vec<u8>,
    cbc::cipher::block_padding::UnpadError,
>)
    requires
        key@.len() == KEY_SIZE,
        iv@.len() == BLOCK_SIZE,
    ensures
        match r {
            Ok(plain) => data@.len() % (BLOCK_SIZE as nat) == 0 && plain@ == cbc_plain(
                key@,
                iv@,
                data@,
            ),
            Err(_) => data@.len() % (BLOCK_SIZE as nat) != 0,
        },
{
    let mut buf = data.to_vec();
    cbc::Decryptor::<aes::Aes256>::new(GenericArray::from_slice(key), GenericArray::from_slice(iv))
        .decrypt_padded_mut::<NoPadding>(&mut buf).map(|plain| plain.to_vec())
}

/// What the code section decrypts to: the stolen bytes and after them the
/// section's bytes, decrypted in cipher block chaining mode under `key` and
/// the initialization vector that `encrypted_iv` decrypts to as one block.
pub open spec fn code_section_plain(
    key: Seq<u8>,
    encrypted_iv: Seq<u8>,
    stolen: Seq<u8>,
    raw: Seq<u8>,
) -> Seq<u8> {
    cbc_plain(key, aes256_block_decrypted(key, encrypted_iv), stolen + raw)
}

/// Decrypts a code section: `stolen`, the bytes that were taken from its
/// start, followed by `raw`, the bytes that the file holds for it. Fails with
/// `Crypto` where the two together are not a whole number of blocks.
pub fn decrypt_code_section(key: &[u8], encrypted_iv: &[u8], stolen: &[u8], raw: &[u8]) -> (r:
    Result<Vec<u8>, UnpackError>)
    requires
        key@.len() == KEY_SIZE,
        encrypted_iv@.len() == BLOCK_SIZE,
    ensures
        match r {
            Ok(plain) => (stolen@.len() + raw@.len()) % (BLOCK_SIZE as nat) == 0 && plain@
                == code_section_plain(key@, encrypted_iv@, stolen@, raw@),
            Err(e) => (stolen@.len() + raw@.len()) % (BLOCK_SIZE as nat) != 0 && e
                == UnpackError::Crypto,
        },
{
    let iv = match aes256_decrypt_block(key, encrypted_iv) {
        Ok(iv) => iv,
        Err(_) => {
            return Err(UnpackError::Crypto);
        },
    };
    let mut buf: Vec<u8> = Vec::new();
    buf.extend_from_slice(stolen);
    buf.extend_from_slice(raw);
    assert(buf@ =~= stolen@ + raw@);
    match aes256_cbc_decrypt(key, iv.as_slice(), buf.as_slice()) {
        Ok(plain) => Ok(plain),
        Err(_) => Err(UnpackError::Crypto),
    }
}

/// Block `i` of what `plain` is stored as when it is encrypted in cipher
/// block chaining mode with the block function `enc`: the block XOR the
/// stored block before it, or the initialization vector for the first,
/// encrypted.
pub open spec fn cbc_stored_block(
    enc: spec_fn(Seq<u8>) -> Seq<u8>,
    iv: Seq<u8>,
    plain: Seq<u8>,
    i: int,
) -> Seq<u8>
    decreases i,
{
    if i <= 0 {
        enc(xor_bytes(block_at(plain, 0), iv))
    } else {
        enc(xor_bytes(block_at(plain, i), cbc_stored_block(enc, iv, plain, i - 1)))
    }
}

/// What `plain`, a whole number of blocks, is stored as when it is encrypted
/// in cipher block chaining mode with the block function `enc`.
pub open spec fn cbc_stored(enc: spec_fn(Seq<u8>) -> Seq<u8>, iv: Seq<u8>, plain: Seq<u8>) -> Seq<
    u8,
> {
    Seq::new(
        plain.len(),
        |j: int| cbc_stored_block(enc, iv, plain, j / BLOCK_SIZE as int)[j % BLOCK_SIZE as int],
    )
}

/// Whether AES-256 decryption under `key` undoes `enc` on every block.
pub open spec fn undone_by_aes256(enc: spec_fn(Seq<u8>) -> Seq<u8>, key: Seq<u8>) -> bool {
    forall|b: Seq<u8>|
        b.len() == BLOCK_SIZE ==> (#[trigger] enc(b)).len() == BLOCK_SIZE
            && aes256_block_decrypted(key, enc(b)) == b
}

proof fn lemma_stored_block(
    enc: spec_fn(Seq<u8>) -> Seq<u8>,
    key: Seq<u8>,
    iv: Seq<u8>,
    plain: Seq<u8>,
    i: int,
)
    requires
        undone_by_aes256(enc, key),
        iv.len() == BLOCK_SIZE,
        0 <= i,
        BLOCK_SIZE * (i + 1) <= plain.len(),
    ensures
        cbc_stored_block(enc, iv, plain, i).len() == BLOCK_SIZE,
        block_at(cbc_stored(enc, iv, plain), i) == cbc_stored_block(enc, iv, plain, i),
    decreases i,
{
    let before = if i == 0 {
        iv
    } else {
        cbc_stored_block(enc, iv, plain, i - 1)
    };
    if i > 0 {
        lemma_stored_block(enc, key, iv, plain, i - 1);
    }
    let mixed = xor_bytes(block_at(plain, i), before);
    assert(mixed.len() == BLOCK_SIZE);
    assert(cbc_stored_block(enc, iv, plain, i) == enc(mixed));
    let stored = cbc_stored(enc, iv, plain);
    assert forall|k: int| 0 <= k < BLOCK_SIZE implies block_at(stored, i)[k] == cbc_stored_block(
        enc,
        iv,
        plain,
        i,
    )[k] by {
        let j = BLOCK_SIZE * i + k;
        assert(j / BLOCK_SIZE as int == i && j % BLOCK_SIZE as int == k);
    }
    assert(block_at(stored, i) =~= cbc_stored_block(enc, iv, plain, i));
}

/// Decrypting in cipher block chaining mode what was encrypted in that mode
/// gives the plain bytes back, for every key, initialization vector and
/// whole number of blocks, and every block function that AES-256 decryption
/// under the key undoes; so does the decryption of a code section from the
/// encrypted initialization vector.
pub proof fn lemma_cbc_round_trip(
    enc: spec_fn(Seq<u8>) -> Seq<u8>,
    key: Seq<u8>,
    iv: Seq<u8>,
    plain: Seq<u8>,
)
    requires
        undone_by_aes256(enc, key),
        iv.len() == BLOCK_SIZE,
        plain.len() % (BLOCK_SIZE as nat) == 0,
    ensures
        cbc_plain(key, iv, cbc_stored(enc, iv, plain)) == plain,
        forall|stolen: Seq<u8>, raw: Seq<u8>|
            stolen + raw == cbc_stored(enc, iv, plain) ==> #[trigger] code_section_plain(
                key,
                enc(iv),
                stolen,
                raw,
            ) == plain,
{
    let stored = cbc_stored(enc, iv, plain);
    let back = cbc_plain(key, iv, stored);
    assert forall|j: int| 0 <= j < plain.len() implies back[j] == plain[j] by {
        let i = j / BLOCK_SIZE as int;
        let k = j % BLOCK_SIZE as int;
        assert(BLOCK_SIZE * (i + 1) <= plain.len());
        lemma_stored_block(enc, key, iv, plain, i);
        if i > 0 {
            lemma_stored_block(enc, key, iv, plain, i - 1);
        }
        let before = if i == 0 {
            iv
        } else {
            cbc_stored_block(enc, iv, plain, i - 1)
        };
        let mixed = xor_bytes(block_at(plain, i), before);
        assert(block_at(stored, i) == enc(mixed));
        assert(aes256_block_decrypted(key, enc(mixed)) == mixed);
        let p = block_at(plain, i)[k];
        let q = before[k];
        assert((p ^ q) ^ q == p) by (bit_vector);
        assert(mixed[k] == p ^ q);
        assert(cbc_plain_block(key, iv, stored, i)[k] == mixed[k] ^ q);
        assert(block_at(plain, i)[k] == plain[j]);
    }
    assert(back =~= plain);
    assert(aes256_block_decrypted(key, enc(iv)) == iv);
}

} // verus!
