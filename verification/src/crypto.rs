//! Passphrase encryption of note text.
//!
//! A payload is base64 (standard alphabet, padded) of
//! `version (1) ‖ salt (16) ‖ nonce (12) ‖ AES-256-GCM ciphertext and tag`,
//! the key being PBKDF2-HMAC-SHA256 of the passphrase and salt with 210 000
//! rounds.
use vstd::prelude::*;
use vstd::utf8::{encode_utf8, valid_utf8, decode_utf8};
use vstd::string::StringSliceAdditionalSpecFns;
use aes_gcm::aead::{Aead, KeyInit};
use base64::Engine;
use getrandom::Error as RandomError;

use crate::text::{decimal, text_then_decimal};
use crate::chars::{trimmed, chars_of, trim_range, string_of};
use crate::yfs::format::{push_bytes, string_from_utf8};

verus! {

pub const VERSION: u8 = 1;
pub const SALT_LEN: usize = 16;
pub const NONCE_LEN: usize = 12;
pub const KEY_LEN: usize = 32;
pub const PBKDF2_ITERS: u32 = 210_000;
pub const HEADER_LEN: usize = 29;
/// The longest plaintext AES-GCM encrypts: 2^36 bytes.
pub const AES_GCM_P_MAX: u64 = 0x10_0000_0000;

// ---------------------------------------------------------------------------
// Outside crates.

/// The 32-byte PBKDF2-HMAC-SHA256 key of `password` and `salt` after
/// `rounds` rounds.
pub uninterp spec fn spec_pbkdf2_sha256(password: Seq<u8>, salt: Seq<u8>, rounds: u32) -> Seq<u8>;

/// Calls `pbkdf2::pbkdf2_hmac::<sha2::Sha256>` into a 32-byte buffer. The
/// key is named, not described.
#[verifier::external_body]
fn pbkdf2_sha256(password: &[u8], salt: &[u8], rounds: u32) -> (key: [u8; 32])
    ensures
        key@ == spec_pbkdf2_sha256(password@, salt@, rounds),
{
    let mut key = [0u8; 32];
    pbkdf2::pbkdf2_hmac::<sha2::Sha256>(password, salt, rounds, &mut key);
    key
}

/// The AES-256-GCM ciphertext, tag appended, of `plaintext` under `key`
/// and `nonce`, with no associated data.
pub uninterp spec fn spec_aes256gcm_seal(key: Seq<u8>, nonce: Seq<u8>, plaintext: Seq<u8>) -> Seq<u8>;

/// What AES-256-GCM decryption of `ciphertext` (tag appended) under `key`
/// and `nonce` gives: `None` when it is refused.
pub uninterp spec fn spec_aes256gcm_open(key: Seq<u8>, nonce: Seq<u8>, ciphertext: Seq<u8>) -> Option<
    Seq<u8>,
>;

/// Calls `Aead::encrypt` of `aes_gcm::Aes256Gcm`. The crate refuses exactly
/// a plaintext longer than 2^36 bytes (`P_MAX`) and appends a 16-byte tag;
/// the ciphertext itself is named, not described.
#[verifier::external_body]
fn aes256gcm_encrypt(key: &[u8; 32], nonce: &[u8], plaintext: &[u8]) -> (r: Option<Vec<u8>>)
    requires
        nonce@.len() == 12,
    ensures
        r is Some <==> plaintext@.len() <= AES_GCM_P_MAX,
        r matches Some(c) ==> c@ == spec_aes256gcm_seal(key@, nonce@, plaintext@) && c@.len()
            == plaintext@.len() + 16,
{
    let cipher = aes_gcm::Aes256Gcm::new(key.into());
    cipher.encrypt(aes_gcm::Nonce::from_slice(nonce), plaintext).ok()
}

/// `opened` is the plaintext of every plaintext that AES-GCM sealed into
/// `ciphertext` under `key` and `nonce`.
pub open spec fn opens_what_was_sealed(key: Seq<u8>, nonce: Seq<u8>, ciphertext: Seq<u8>, opened: Option<Seq<u8>>) -> bool {
    forall|p: Seq<u8>|
        p.len() <= AES_GCM_P_MAX && #[trigger] spec_aes256gcm_seal(key, nonce, p) == ciphertext ==> opened
            == Some(p)
}

/// Calls `Aead::decrypt` of `aes_gcm::Aes256Gcm`. Its result is named; the
/// one fact claimed of it is that of any authenticated cipher: it gives
/// back the plaintext that encryption under the same key and nonce sealed.
#[verifier::external_body]
fn aes256gcm_decrypt(key: &[u8; 32], nonce: &[u8], ciphertext: &[u8]) -> (r: Option<Vec<u8>>)
    requires
        nonce@.len() == 12,
    ensures
        opt_bytes(&r) == spec_aes256gcm_open(key@, nonce@, ciphertext@),
        opens_what_was_sealed(key@, nonce@, ciphertext@, opt_bytes(&r)),
{
    let cipher = aes_gcm::Aes256Gcm::new(key.into());
    cipher.decrypt(aes_gcm::Nonce::from_slice(nonce), ciphertext).ok()
}

/// The standard padded base64 text of `bytes`.
pub uninterp spec fn spec_base64_encode(bytes: Seq<u8>) -> Seq<char>;

/// The bytes that standard padded base64 decoding of `text` gives, `None`
/// when the text is refused.
pub uninterp spec fn spec_base64_decode(text: Seq<char>) -> Option<Seq<u8>>;

/// A character of the standard base64 alphabet or its padding.
pub open spec fn base64_char(c: char) -> bool {
    ('A' <= c && c <= 'Z') || ('a' <= c && c <= 'z') || ('0' <= c && c <= '9') || c == '+' || c
        == '/' || c == '='
}

/// Calls `Engine::encode` of `base64::engine::general_purpose::STANDARD`.
/// The text is named; it is made of the standard alphabet and `=` only.
/// The crate panics when the encoded length overflows `usize`, which the
/// bound on the input rules out.
#[verifier::external_body]
fn base64_encode(bytes: &[u8]) -> (s: String)
    requires
        bytes@.len() <= usize::MAX / 2,
    ensures
        s@ == spec_base64_encode(bytes@),
        forall|i: int| 0 <= i < s@.len() ==> base64_char(#[trigger] s@[i]),
{
    base64::engine::general_purpose::STANDARD.encode(bytes)
}

/// `decoded` is the bytes of every byte string whose encoding is `text`.
pub open spec fn decodes_what_was_encoded(text: Seq<char>, decoded: Option<Seq<u8>>) -> bool {
    forall|b: Seq<u8>| text == #[trigger] spec_base64_encode(b) ==> decoded == Some(b)
}

/// Calls `Engine::decode` of `base64::engine::general_purpose::STANDARD`.
/// The bytes are named; decoding what encoding produced gives the bytes
/// back.
#[verifier::external_body]
fn base64_decode(text: &str) -> (r: Option<Vec<u8>>)
    ensures
        opt_bytes(&r) == spec_base64_decode(text@),
        decodes_what_was_encoded(text@, opt_bytes(&r)),
{
    base64::engine::general_purpose::STANDARD.decode(text).ok()
}

#[verifier::external_type_specification]
#[verifier::external_body]
pub struct ExRandomError(RandomError);

/// Calls `getrandom::fill` on the vector's bytes: what they become is
/// chance, only their number stays.
#[verifier::external_body]
fn random_fill(buf: &mut Vec<u8>) -> (r: Result<(), RandomError>)
    ensures
        final(buf)@.len() == old(buf)@.len(),
{
    getrandom::fill(buf.as_mut_slice())
}

/// `format!("{e}")` of a random-source error; its text is the crate's.
#[verifier::external_body]
fn random_error_text(e: &RandomError) -> (s: String) {
    format!("{e}")
}

/// The text without its leading and trailing White_Space characters, as
/// `str::trim` gives it.
fn trim_text(s: &str) -> (t: String)
    ensures
        t@ == trimmed(s@),
{
    let cs = chars_of(s);
    let (a, b) = trim_range(&cs, 0, cs.len(), 0);
    proof {
        assert(cs@.subrange(0, cs@.len() as int) =~= cs@);
    }
    string_of(&cs, a, b)
}

// ---------------------------------------------------------------------------
// The payload.

/// The key of `passphrase` (its UTF-8 bytes) and `salt`.
pub open spec fn spec_derive_key(passphrase: Seq<u8>, salt: Seq<u8>) -> Seq<u8> {
    spec_pbkdf2_sha256(passphrase, salt, PBKDF2_ITERS)
}

/// The bytes of a payload before base64.
pub open spec fn frame(salt: Seq<u8>, nonce: Seq<u8>, body: Seq<u8>) -> Seq<u8> {
    seq![VERSION] + salt + nonce + body
}

/// The payload of `plaintext` (bytes) under `passphrase` (bytes), `salt`
/// and `nonce`.
pub open spec fn sealed_text(plaintext: Seq<u8>, passphrase: Seq<u8>, salt: Seq<u8>, nonce: Seq<u8>) -> Seq<char> {
    spec_base64_encode(
        frame(salt, nonce, spec_aes256gcm_seal(spec_derive_key(passphrase, salt), nonce, plaintext)),
    )
}

/// `text` is what encryption made of `plaintext` under `passphrase`, with
/// this salt and nonce.
pub open spec fn sealed_with(text: Seq<char>, plaintext: Seq<u8>, passphrase: Seq<u8>, salt: Seq<u8>, nonce: Seq<u8>) -> bool {
    &&& salt.len() == SALT_LEN
    &&& nonce.len() == NONCE_LEN
    &&& plaintext.len() <= AES_GCM_P_MAX
    &&& spec_aes256gcm_seal(spec_derive_key(passphrase, salt), nonce, plaintext).len() == plaintext.len() + 16
    &&& text == sealed_text(plaintext, passphrase, salt, nonce)
    &&& forall|i: int| 0 <= i < text.len() ==> base64_char(#[trigger] text[i])
}

/// `text` is what encryption made of `plaintext` under `passphrase`, with
/// some salt and nonce.
pub open spec fn is_sealing_of(text: Seq<char>, plaintext: Seq<u8>, passphrase: Seq<u8>) -> bool {
    exists|salt: Seq<u8>, nonce: Seq<u8>| #[trigger] sealed_with(text, plaintext, passphrase, salt, nonce)
}

/// What decryption of the payload `text` with `passphrase` (bytes) gives:
/// the plaintext, or the text of the first check that fails.
pub open spec fn decrypt_result(text: Seq<char>, passphrase: Seq<u8>) -> Result<Seq<char>, Seq<char>> {
    match spec_base64_decode(trimmed(text)) {
        None => Err("密文不是合法 base64"@),
        Some(raw) => if raw.len() < HEADER_LEN + 16 {
            Err("密文过短或已损坏"@)
        } else if raw[0] != VERSION {
            Err("不支持的密文版本: "@ + decimal(raw[0] as nat))
        } else {
            match spec_aes256gcm_open(
                spec_derive_key(passphrase, raw.subrange(1, 17)),
                raw.subrange(17, 29),
                raw.subrange(29, raw.len() as int),
            ) {
                None => Err("口令错误或密文已损坏"@),
                Some(p) => if valid_utf8(p) {
                    Ok(decode_utf8(p))
                } else {
                    Err("解密结果不是合法 UTF-8"@)
                },
            }
        },
    }
}

/// The error of a call: a result that is `Err` with exactly `text`.
pub open spec fn fails_with(r: Result<String, String>, text: Seq<char>) -> bool {
    r matches Err(e) && e@ == text
}

/// A result, its strings taken by their views.
pub open spec fn result_view(r: Result<String, String>) -> Result<Seq<char>, Seq<char>> {
    match r {
        Ok(s) => Ok(s@),
        Err(e) => Err(e@),
    }
}

/// Derives the 32-byte key of a passphrase and salt.
pub fn derive_key(passphrase: &str, salt: &[u8]) -> (key: [u8; 32])
    ensures
        key@ == spec_derive_key(passphrase.spec_bytes(), salt@),
{
    pbkdf2_sha256(passphrase.as_bytes(), salt, PBKDF2_ITERS)
}

/// Fills `buf` from the system's random source.
pub fn fill_random(buf: &mut Vec<u8>) -> (r: Result<(), String>)
    ensures
        final(buf)@.len() == old(buf)@.len(),
        r matches Err(e) ==> "随机数生成失败: "@.is_prefix_of(e@),
{
    match random_fill(buf) {
        Ok(()) => Ok(()),
        Err(e) => {
            let text = random_error_text(&e);
            Err(String::from_str("随机数生成失败: ").concat(text.as_str()))
        },
    }
}

fn zero_bytes(n: usize) -> (v: Vec<u8>)
    ensures
        v@.len() == n,
{
    let mut v: Vec<u8> = Vec::new();
    let mut i: usize = 0;
    while i < n
        invariant
            i <= n,
            v@.len() == i,
        decreases n - i,
    {
        v.push(0);
        i = i + 1;
    }
    v
}

/// Encrypts `plaintext` with a given salt and nonce: the payload, or the
/// refusal of a plaintext longer than AES-GCM takes.
pub fn seal(plaintext: &str, passphrase: &str, salt: &[u8], nonce: &[u8]) -> (r: Result<String, String>)
    requires
        salt@.len() == SALT_LEN,
        nonce@.len() == NONCE_LEN,
        plaintext.spec_bytes().len() <= usize::MAX / 4,
    ensures
        plaintext.spec_bytes().len() <= AES_GCM_P_MAX ==> (r matches Ok(s) && sealed_with(
            s@,
            plaintext.spec_bytes(),
            passphrase.spec_bytes(),
            salt@,
            nonce@,
        )),
        plaintext.spec_bytes().len() > AES_GCM_P_MAX ==> fails_with(r, "加密失败"@),
{
    let key = derive_key(passphrase, salt);
    let pt = plaintext.as_bytes();
    let ct = match aes256gcm_encrypt(&key, nonce, pt) {
        Some(c) => c,
        None => return Err(String::from_str("加密失败")),
    };
    let mut out: Vec<u8> = Vec::new();
    out.push(VERSION);
    push_bytes(&mut out, salt);
    push_bytes(&mut out, nonce);
    push_bytes(&mut out, ct.as_slice());
    proof {
        assert(out@ =~= frame(salt@, nonce@, ct@));
    }
    Ok(base64_encode(out.as_slice()))
}

/// Encrypts `plaintext` with `passphrase` under a fresh random salt and
/// nonce; returns the base64 payload.
pub fn crypto_encrypt(plaintext: String, passphrase: String) -> (r: Result<String, String>)
    requires
        encode_utf8(plaintext@).len() <= usize::MAX / 4,
    ensures
        passphrase@.len() == 0 ==> fails_with(r, "口令不能为空"@),
        passphrase@.len() > 0 ==> match r {
            Ok(s) => is_sealing_of(s@, encode_utf8(plaintext@), encode_utf8(passphrase@)),
            Err(e) => "随机数生成失败: "@.is_prefix_of(e@) || (encode_utf8(plaintext@).len()
                > AES_GCM_P_MAX && e@ == "加密失败"@),
        },
{
    if passphrase.as_str().is_empty() {
        return Err(String::from_str("口令不能为空"));
    }
    let mut salt = zero_bytes(SALT_LEN);
    let mut nonce = zero_bytes(NONCE_LEN);
    fill_random(&mut salt)?;
    fill_random(&mut nonce)?;
    let r = seal(plaintext.as_str(), passphrase.as_str(), salt.as_slice(), nonce.as_slice());
    proof {
        if r is Ok {
            assert(sealed_with(r->Ok_0@, encode_utf8(plaintext@), encode_utf8(passphrase@), salt@, nonce@));
        }
    }
    r
}

/// Decrypts a base64 payload with `passphrase`; returns the plaintext. A
/// payload that encryption made of a plaintext under the same passphrase
/// decrypts to that plaintext.
pub fn crypto_decrypt(ciphertext: String, passphrase: String) -> (r: Result<String, String>)
    ensures
        passphrase@.len() == 0 ==> fails_with(r, "口令不能为空"@),
        passphrase@.len() > 0 ==> result_view(r) == decrypt_result(ciphertext@, encode_utf8(passphrase@)),
        passphrase@.len() > 0 ==> forall|pt: Seq<char>|
            #[trigger] is_sealing_of(ciphertext@, encode_utf8(pt), encode_utf8(passphrase@)) ==> (r matches Ok(
                s,
            ) && s@ == pt),
{
    if passphrase.as_str().is_empty() {
        return Err(String::from_str("口令不能为空"));
    }
    let ghost pass = encode_utf8(passphrase@);
    let text = trim_text(ciphertext.as_str());
    let decoded = base64_decode(text.as_str());
    let ghost dec = opt_bytes(&decoded);
    let raw = match decoded {
        Some(v) => v,
        None => {
            proof {
                assert forall|pt: Seq<char>|
                    #[trigger] is_sealing_of(ciphertext@, encode_utf8(pt), pass) implies false by {
                    lemma_sealed_frame(ciphertext@, text@, encode_utf8(pt), pass, dec);
                }
            }
            return Err(String::from_str("密文不是合法 base64"));
        },
    };
    if raw.len() < HEADER_LEN + 16 {
        proof {
            assert forall|pt: Seq<char>|
                #[trigger] is_sealing_of(ciphertext@, encode_utf8(pt), pass) implies false by {
                lemma_sealed_frame(ciphertext@, text@, encode_utf8(pt), pass, dec);
            }
        }
        return Err(String::from_str("密文过短或已损坏"));
    }
    if raw[0] != VERSION {
        proof {
            assert forall|pt: Seq<char>|
                #[trigger] is_sealing_of(ciphertext@, encode_utf8(pt), pass) implies false by {
                lemma_sealed_frame(ciphertext@, text@, encode_utf8(pt), pass, dec);
            }
        }
        return Err(text_then_decimal("不支持的密文版本: ", raw[0] as u64));
    }
    let salt = vstd::slice::slice_subrange(raw.as_slice(), 1, 1 + SALT_LEN);
    let nonce = vstd::slice::slice_subrange(raw.as_slice(), 1 + SALT_LEN, HEADER_LEN);
    let body = vstd::slice::slice_subrange(raw.as_slice(), HEADER_LEN, raw.len());
    let key = derive_key(passphrase.as_str(), salt);
    let opened = aes256gcm_decrypt(&key, nonce, body);
    proof {
        assert forall|pt: Seq<char>|
            #[trigger] is_sealing_of(ciphertext@, encode_utf8(pt), pass) implies (opened matches Some(q) && q@
                == encode_utf8(pt)) by {
            lemma_sealed_frame(ciphertext@, text@, encode_utf8(pt), pass, dec);
            assert(spec_aes256gcm_seal(key@, nonce@, encode_utf8(pt)) == body@);
        }
    }
    let plain = match opened {
        Some(p) => p,
        None => {
            proof {
                assert forall|pt: Seq<char>|
                    #[trigger] is_sealing_of(ciphertext@, encode_utf8(pt), pass) implies false by {}
            }
            return Err(String::from_str("口令错误或密文已损坏"));
        },
    };
    let ghost pbytes = plain@;
    match string_from_utf8(plain) {
        Some(s) => {
            proof {
                vstd::utf8::encode_utf8_decode_utf8(s@);
                assert forall|pt: Seq<char>|
                    #[trigger] is_sealing_of(ciphertext@, encode_utf8(pt), pass) implies s@ == pt by {
                    vstd::utf8::encode_utf8_decode_utf8(pt);
                }
            }
            Ok(s)
        },
        None => {
            proof {
                assert forall|pt: Seq<char>|
                    #[trigger] is_sealing_of(ciphertext@, encode_utf8(pt), pass) implies false by {
                    vstd::utf8::encode_utf8_valid_utf8(pt);
                }
            }
            Err(String::from_str("解密结果不是合法 UTF-8"))
        },
    }
}

/// The bytes a decoding gave, by their view.
pub open spec fn opt_bytes(r: &Option<Vec<u8>>) -> Option<Seq<u8>> {
    match r {
        Some(v) => Some(v@),
        None => None,
    }
}

/// A text of base64 characters has no White_Space to trim.
proof fn lemma_trim_base64(s: Seq<char>)
    requires
        forall|i: int| 0 <= i < s.len() ==> base64_char(#[trigger] s[i]),
    ensures
        trimmed(s) == s,
{
    if s.len() > 0 {
        assert(base64_char(s[0]));
        assert(base64_char(s[s.len() - 1]));
    }
}

/// A sealed payload decodes to its frame, whose parts are the version, the
/// salt, the nonce and the ciphertext of the plaintext.
proof fn lemma_sealed_frame(text: Seq<char>, t: Seq<char>, pt: Seq<u8>, pass: Seq<u8>, decoded: Option<Seq<u8>>)
    requires
        is_sealing_of(text, pt, pass),
        t == trimmed(text),
        forall|b: Seq<u8>| t == #[trigger] spec_base64_encode(b) ==> decoded == Some(b),
    ensures
        decoded matches Some(raw) && raw.len() == HEADER_LEN + 16 + pt.len() && raw[0] == VERSION
            && pt.len() <= AES_GCM_P_MAX && spec_aes256gcm_seal(
            spec_derive_key(pass, raw.subrange(1, 17)),
            raw.subrange(17, 29),
            pt,
        ) == raw.subrange(29, raw.len() as int),
{
    let (salt, nonce) = choose|salt: Seq<u8>, nonce: Seq<u8>| #[trigger] sealed_with(text, pt, pass, salt, nonce);
    lemma_trim_base64(text);
    let ct = spec_aes256gcm_seal(spec_derive_key(pass, salt), nonce, pt);
    let raw = frame(salt, nonce, ct);
    assert(t == spec_base64_encode(raw));
    assert(raw.subrange(1, 17) =~= salt);
    assert(raw.subrange(17, 29) =~= nonce);
    assert(raw.subrange(29, raw.len() as int) =~= ct);
}

} // verus!
