//! The portal's client-side password obfuscation: a random printable prefix
//! is put before the password, the whole is padded and encrypted in CBC mode
//! with the page's salt as the cipher key, and the ciphertext (without the
//! initialization vector) is returned base64-encoded.
use vstd::prelude::*;

use crate::errors::CryptoError;
use vstd::slice::{slice_subrange, slice_to_vec};
use vstd::string::StringSliceAdditionalSpecFns;

verus! {

/// The printable alphabet random prefixes and initialization vectors are
/// drawn from; ambiguous glyphs (`0`/`O`, `1`/`l`/`I`) are excluded.
pub const AES_CHARS: [u8; 48] = [
    65, 66, 67, 68, 69, 70, 71, 72, 74, 75, 77, 78, 80, 81, 82, 83, 84, 87, 88, 89, 90, 97, 98,
    99, 100, 101, 102, 104, 105, 106, 107, 109, 110, 112, 114, 115, 116, 119, 120, 121, 122, 50,
    51, 52, 53, 54, 55, 56,
];

/// True when `b` is a letter of the random-string alphabet.
pub open spec fn is_alphabet_byte(b: u8) -> bool {
    AES_CHARS@.contains(b)
}

/// True when every byte of `s` is a letter of the random-string alphabet.
pub open spec fn is_alphabet_seq(s: Seq<u8>) -> bool {
    forall|i: int| 0 <= i < s.len() ==> is_alphabet_byte(#[trigger] s[i])
}

/// True exactly when `n` is a byte length the cipher accepts as a key size.
pub open spec fn valid_key_len(n: nat) -> bool {
    n == 16 || n == 24 || n == 32
}

/// What the AES-128 block transform returns for a 16-byte key and block.
pub uninterp spec fn aes128_block(key: Seq<u8>, block: Seq<u8>) -> Seq<u8>;

/// What the AES-192 block transform returns for a 24-byte key and a 16-byte block.
pub uninterp spec fn aes192_block(key: Seq<u8>, block: Seq<u8>) -> Seq<u8>;

/// What the AES-256 block transform returns for a 32-byte key and a 16-byte block.
pub uninterp spec fn aes256_block(key: Seq<u8>, block: Seq<u8>) -> Seq<u8>;

/// Relies on `aes::Aes128` with `cipher::BlockCipherEncrypt::encrypt_block`:
/// the AES-128 block transform, a function of key and block alone, rewriting
/// a 16-byte block in place.
#[verifier::external_body]
fn aes128_encrypt_block(key: &[u8], block: &[u8]) -> (r: Vec<u8>)
    requires
        key@.len() == 16,
        block@.len() == 16,
    ensures
        r@ == aes128_block(key@, block@),
        r@.len() == 16,
{
    let cipher = <aes::Aes128 as aes::cipher::KeyInit>::new_from_slice(key).unwrap();
    let mut b = aes::Block::default();
    b.copy_from_slice(block);
    aes::cipher::BlockCipherEncrypt::encrypt_block(&cipher, &mut b);
    b.to_vec()
}

/// Relies on `aes::Aes192` with `cipher::BlockCipherEncrypt::encrypt_block`:
/// the AES-192 block transform, a function of key and block alone, rewriting
/// a 16-byte block in place.
#[verifier::external_body]
fn aes192_encrypt_block(key: &[u8], block: &[u8]) -> (r: Vec<u8>)
    requires
        key@.len() == 24,
        block@.len() == 16,
    ensures
        r@ == aes192_block(key@, block@),
        r@.len() == 16,
{
    let cipher = <aes::Aes192 as aes::cipher::KeyInit>::new_from_slice(key).unwrap();
    let mut b = aes::Block::default();
    b.copy_from_slice(block);
    aes::cipher::BlockCipherEncrypt::encrypt_block(&cipher, &mut b);
    b.to_vec()
}

/// Relies on `aes::Aes256` with `cipher::BlockCipherEncrypt::encrypt_block`:
/// the AES-256 block transform, a function of key and block alone, rewriting
/// a 16-byte block in place.
#[verifier::external_body]
fn aes256_encrypt_block(key: &[u8], block: &[u8]) -> (r: Vec<u8>)
    requires
        key@.len() == 32,
        block@.len() == 16,
    ensures
        r@ == aes256_block(key@, block@),
        r@.len() == 16,
{
    let cipher = <aes::Aes256 as aes::cipher::KeyInit>::new_from_slice(key).unwrap();
    let mut b = aes::Block::default();
    b.copy_from_slice(block);
    aes::cipher::BlockCipherEncrypt::encrypt_block(&cipher, &mut b);
    b.to_vec()
}

/// The block transform the key's length selects: AES-128, -192 or -256.
pub open spec fn aes_block_for_key(key: Seq<u8>, block: Seq<u8>) -> Seq<u8> {
    if key.len() == 16 {
        aes128_block(key, block)
    } else if key.len() == 24 {
        aes192_block(key, block)
    } else {
        aes256_block(key, block)
    }
}

/// Encrypts one block with the cipher the key's length selects.
fn encrypt_block_with_key(key: &[u8], block: &[u8]) -> (r: Vec<u8>)
    requires
        valid_key_len(key@.len()),
        block@.len() == 16,
    ensures
        r@ == aes_block_for_key(key@, block@),
        r@.len() == 16,
{
    if key.len() == 16 {
        aes128_encrypt_block(key, block)
    } else if key.len() == 24 {
        aes192_encrypt_block(key, block)
    } else {
        aes256_encrypt_block(key, block)
    }
}

/// Byte-wise XOR of two sequences of equal length.
pub open spec fn xor_seq(a: Seq<u8>, b: Seq<u8>) -> Seq<u8> {
    Seq::new(a.len(), |i: int| a[i] ^ b[i])
}

/// XORs two equally long byte slices, element by element.
fn xor_block(a: &[u8], b: &[u8]) -> (r: Vec<u8>)
    requires
        a@.len() == b@.len(),
    ensures
        r@ == xor_seq(a@, b@),
{
    let mut r: Vec<u8> = Vec::new();
    let mut i: usize = 0;
    while i < a.len()
        invariant
            i <= a@.len(),
            a@.len() == b@.len(),
            r@ == xor_seq(a@, b@).take(i as int),
        decreases a@.len() - i,
    {
        r.push(a[i] ^ b[i]);
        assert(r@ =~= xor_seq(a@, b@).take(i + 1));
        i = i + 1;
    }
    assert(r@ =~= xor_seq(a@, b@));
    r
}

/// How many bytes the byte-count padding adds to a plaintext of `n` bytes:
/// always between 1 and 16, so that an exact multiple of the block size
/// still gains a full pad block.
pub open spec fn pkcs7_pad_len(n: nat) -> nat {
    (16 - n % 16) as nat
}

/// The plaintext followed by its byte-count padding: `pkcs7_pad_len(n)`
/// copies of that very count.
pub open spec fn pkcs7_pad(data: Seq<u8>) -> Seq<u8> {
    data + Seq::new(pkcs7_pad_len(data.len()), |i: int| pkcs7_pad_len(data.len()) as u8)
}

/// Appends the byte-count padding to `data`, making its length the next
/// multiple of 16 (a full extra block when it already is one).
fn pkcs7_padded(data: Vec<u8>) -> (r: Vec<u8>)
    requires
        data@.len() + 16 <= usize::MAX,
    ensures
        r@ == pkcs7_pad(data@),
        r@.len() % 16 == 0,
        r@.len() == data@.len() + pkcs7_pad_len(data@.len()),
{
    let ghost orig = data@;
    let pad: u8 = (16 - (data.len() % 16)) as u8;
    let mut r = data;
    let mut k: usize = 0;
    while k < pad as usize
        invariant
            pad == pkcs7_pad_len(orig.len()),
            k <= pad,
            orig.len() + 16 <= usize::MAX,
            r@ == orig + Seq::new(k as nat, |i: int| pad),
        decreases pad as int - k,
    {
        r.push(pad);
        assert(r@ =~= orig + Seq::new((k + 1) as nat, |i: int| pad));
        k = k + 1;
    }
    assert(r@ =~= pkcs7_pad(orig));
    r
}

/// CBC encryption of a block-aligned plaintext: each block is XORed with the
/// previous ciphertext block (the initialization vector for the first) and
/// then put through the key's block transform.
pub open spec fn cbc_encrypt_spec(key: Seq<u8>, iv: Seq<u8>, data: Seq<u8>) -> Seq<u8>
    decreases data.len(),
{
    if data.len() < 16 {
        Seq::empty()
    } else {
        let c = aes_block_for_key(key, xor_seq(data.take(16), iv));
        c + cbc_encrypt_spec(key, c, data.skip(16))
    }
}

/// Encrypts a block-aligned plaintext in CBC mode under the cipher the
/// key's length selects. The ciphertext is exactly as long as the input.
pub fn cbc_encrypt(key: &[u8], iv: &[u8], data: &[u8]) -> (r: Vec<u8>)
    requires
        valid_key_len(key@.len()),
        iv@.len() == 16,
        data@.len() % 16 == 0,
    ensures
        r@ == cbc_encrypt_spec(key@, iv@, data@),
        r@.len() == data@.len(),
{
    let mut out: Vec<u8> = Vec::new();
    let mut prev: Vec<u8> = slice_to_vec(iv);
    let mut i: usize = 0;
    proof {
        assert(data@.skip(0) =~= data@);
    }
    while i < data.len()
        invariant
            valid_key_len(key@.len()),
            data@.len() % 16 == 0,
            i % 16 == 0,
            i <= data@.len(),
            prev@.len() == 16,
            out@.len() == i,
            cbc_encrypt_spec(key@, iv@, data@) == out@ + cbc_encrypt_spec(
                key@,
                prev@,
                data@.skip(i as int),
            ),
        decreases data@.len() - i,
    {
        let block = slice_subrange(data, i, i + 16);
        let xored = xor_block(block, prev.as_slice());
        let enc = encrypt_block_with_key(key, xored.as_slice());
        proof {
            assert(data@.skip(i as int).take(16) =~= block@);
            assert(data@.skip(i as int).skip(16) =~= data@.skip(i + 16));
            assert(cbc_encrypt_spec(key@, prev@, data@.skip(i as int)) == enc@
                + cbc_encrypt_spec(key@, enc@, data@.skip(i + 16)));
        }
        out.extend_from_slice(enc.as_slice());
        prev = enc;
        i = i + 16;
    }
    proof {
        assert(data@.skip(data@.len() as int) =~= Seq::<u8>::empty());
        assert(out@ =~= cbc_encrypt_spec(key@, iv@, data@));
    }
    out
}

/// Relies on `rand::random_range`: a random value drawn from the given
/// range, which panics only when the range is empty. Nothing is promised of
/// the outcome beyond its bound.
#[verifier::external_body]
fn random_index(bound: usize) -> (r: usize)
    requires
        bound > 0,
    ensures
        r < bound,
{
    rand::random_range(0..bound)
}

/// Draws `len` bytes from the random-string alphabet.
fn random_alphabet_bytes(len: usize) -> (r: Vec<u8>)
    ensures
        r@.len() == len,
        is_alphabet_seq(r@),
{
    let mut r: Vec<u8> = Vec::new();
    let mut k: usize = 0;
    while k < len
        invariant
            k <= len,
            r@.len() == k,
            is_alphabet_seq(r@),
        decreases len - k,
    {
        let idx = random_index(48);
        let b = AES_CHARS[idx];
        proof {
            assert(AES_CHARS@[idx as int] == b);
            assert(is_alphabet_byte(b));
        }
        r.push(b);
        k = k + 1;
    }
    r
}

/// What base64's standard engine (RFC 4648 alphabet, with padding) encodes
/// the given bytes to.
pub uninterp spec fn base64_std_of(bytes: Seq<u8>) -> Seq<char>;

/// The character length of the standard padded base64 encoding of `n` bytes.
pub open spec fn base64_len(n: nat) -> nat {
    4 * ((n + 2) / 3)
}

/// Relies on `base64::engine::general_purpose::STANDARD` with
/// `base64::Engine::encode`: RFC 4648 base64 with padding, a function of the
/// input bytes alone, four output characters for every three input bytes.
#[verifier::external_body]
fn base64_encode(data: &[u8]) -> (r: String)
    requires
        data@.len() <= 0x1000_0000_0000,
    ensures
        r@ == base64_std_of(data@),
        r@.len() == base64_len(data@.len()),
{
    base64::Engine::encode(&base64::engine::general_purpose::STANDARD, data)
}

/// The byte length of the ciphertext for a password of `pwd_len` bytes: the
/// 64-byte prefix plus the password, padded up to the next multiple of 16
/// (a full extra block on an exact multiple).
pub open spec fn encrypted_byte_len(pwd_len: nat) -> nat {
    16 * ((64 + pwd_len + 16) / 16)
}

/// The padded plaintext is the next multiple of 16 strictly above the plain
/// length, so the ciphertext's length is determined by the password's alone.
proof fn lemma_pkcs7_padded_len(n: nat)
    ensures
        n + pkcs7_pad_len(n) == 16 * ((n + 16) / 16),
        (n + pkcs7_pad_len(n)) % 16 == 0,
{
    let q = n as int / 16;
    let r = n as int % 16;
    vstd::arithmetic::div_mod::lemma_fundamental_div_mod(n as int, 16);
    vstd::arithmetic::div_mod::lemma_mod_bound(n as int, 16);
    vstd::arithmetic::div_mod::lemma_fundamental_div_mod_converse(n as int + 16, 16, q + 1, r);
    vstd::arithmetic::div_mod::lemma_mod_multiples_basic(q + 1, 16);
}

/// The ciphertext of any password is a positive multiple of the block
/// size: sixteen times the number of blocks the prefixed, padded password
/// fills, and at least the five blocks the prefix alone forces.
pub proof fn lemma_ciphertext_len(pwd_len: nat)
    ensures
        encrypted_byte_len(pwd_len) % 16 == 0,
        encrypted_byte_len(pwd_len) >= 80,
        encrypted_byte_len(pwd_len) == 16 * ((64 + pwd_len + 16) / 16),
{
    let q = (64 + pwd_len + 16) / 16;
    vstd::arithmetic::div_mod::lemma_mod_multiples_basic(q as int, 16);
    assert(q >= 5) by {
        vstd::arithmetic::div_mod::lemma_div_is_ordered(80, 64 + pwd_len as int + 16, 16);
    }
}

/// Whether `out` is an encryption of `pwd` under `key` with the given
/// initialization vector and prefix: the prefix is put before the password,
/// the whole padded, CBC-encrypted, and base64-encoded.
pub open spec fn encrypts_to(
    pwd: Seq<u8>,
    key: Seq<u8>,
    iv: Seq<u8>,
    prefix: Seq<u8>,
    out: Seq<char>,
) -> bool {
    &&& iv.len() == 16
    &&& is_alphabet_seq(iv)
    &&& prefix.len() == 64
    &&& is_alphabet_seq(prefix)
    &&& out == base64_std_of(cbc_encrypt_spec(key, iv, pkcs7_pad(prefix + pwd)))
}

/// Encrypts `password` under the page's salt with the given initialization
/// vector and prefix. Succeeds exactly when the salt's byte length is a
/// supported key size; the result is then the base64 of the CBC ciphertext
/// of the padded `prefix || password`.
pub fn encrypt_password_with(
    password: &str,
    pwd_encrypt_salt: &str,
    iv: &[u8],
    prefix: &[u8],
) -> (r: Result<String, CryptoError>)
    requires
        iv@.len() == 16,
        prefix@.len() <= 1024,
        password.spec_bytes().len() <= 0x1000_0000,
    ensures
        r is Ok <==> valid_key_len(pwd_encrypt_salt.spec_bytes().len()),
        !valid_key_len(pwd_encrypt_salt.spec_bytes().len()) ==> r == Err::<
            String,
            CryptoError,
        >(CryptoError::InvalidKeyLength(pwd_encrypt_salt.spec_bytes().len() as usize)),
        r matches Ok(enc) ==> {
            let plain = prefix@ + password.spec_bytes();
            &&& enc@ == base64_std_of(
                cbc_encrypt_spec(pwd_encrypt_salt.spec_bytes(), iv@, pkcs7_pad(plain)),
            )
            &&& enc@.len() == base64_len((16 * ((plain.len() + 16) / 16)) as nat)
        },
{
    let key = pwd_encrypt_salt.as_bytes();
    let key_len = key.len();
    if !(key_len == 16 || key_len == 24 || key_len == 32) {
        return Err(CryptoError::InvalidKeyLength(key_len));
    }
    let mut plain: Vec<u8> = Vec::new();
    plain.extend_from_slice(prefix);
    plain.extend_from_slice(password.as_bytes());
    proof {
        assert(plain@ =~= prefix@ + password.spec_bytes());
        lemma_pkcs7_padded_len(plain@.len());
    }
    let padded = pkcs7_padded(plain);
    let ciphertext = cbc_encrypt(key, iv, padded.as_slice());
    Ok(base64_encode(ciphertext.as_slice()))
}

/// Encrypts `password` with the page's salt as cipher key, after putting a
/// random 64-character prefix before it; a fresh random initialization
/// vector is drawn per call and not transmitted. Succeeds exactly when the
/// salt's byte length is 16, 24 or 32, and fails with the offending length
/// otherwise. The output's character length depends on the password's byte
/// length alone.
pub fn encrypt_password(password: &str, pwd_encrypt_salt: &str) -> (r: Result<String, CryptoError>)
    requires
        password.spec_bytes().len() <= 0x1000_0000,
    ensures
        r is Ok <==> valid_key_len(pwd_encrypt_salt.spec_bytes().len()),
        !valid_key_len(pwd_encrypt_salt.spec_bytes().len()) ==> r == Err::<
            String,
            CryptoError,
        >(CryptoError::InvalidKeyLength(pwd_encrypt_salt.spec_bytes().len() as usize)),
        r matches Ok(enc) ==> {
            &&& exists|iv: Seq<u8>, prefix: Seq<u8>|
                encrypts_to(
                    password.spec_bytes(),
                    pwd_encrypt_salt.spec_bytes(),
                    iv,
                    prefix,
                    enc@,
                )
            &&& enc@.len() == base64_len(encrypted_byte_len(password.spec_bytes().len()))
        },
{
    let iv = random_alphabet_bytes(16);
    let prefix = random_alphabet_bytes(64);
    let r = encrypt_password_with(password, pwd_encrypt_salt, iv.as_slice(), prefix.as_slice());
    proof {
        if r is Ok {
            let enc = r->Ok_0;
            assert(encrypts_to(
                password.spec_bytes(),
                pwd_encrypt_salt.spec_bytes(),
                iv@,
                prefix@,
                enc@,
            ));
        }
    }
    r
}

} // verus!
