use noteme::crypto::{crypto_decrypt, crypto_encrypt, seal};

#[test]
fn roundtrip() {
    let ct = crypto_encrypt("你好 secret".into(), "pw".into()).unwrap();
    let pt = crypto_decrypt(ct.clone(), "pw".into()).unwrap();
    assert_eq!(pt, "你好 secret");
    assert!(crypto_decrypt(ct, "bad".into()).is_err());
}

#[test]
fn empty_passphrase_is_refused() {
    assert_eq!(crypto_encrypt("x".into(), "".into()), Err("口令不能为空".to_string()));
    assert_eq!(crypto_decrypt("AAAA".into(), "".into()), Err("口令不能为空".to_string()));
}

#[test]
fn seal_is_deterministic_for_a_salt_and_nonce() {
    let salt = [7u8; 16];
    let nonce = [9u8; 12];
    let a = seal("note", "pw", &salt, &nonce).unwrap();
    let b = seal("note", "pw", &salt, &nonce).unwrap();
    assert_eq!(a, b);
    // version 1, salt, nonce, 4 bytes of ciphertext and a 16-byte tag: 49 bytes, 68 base64 characters.
    assert_eq!(a.len(), 68);
    assert!(a.starts_with("AQcHBwcHBwcHBwcHBwcHBwcJCQkJCQkJCQkJ"));
    assert_eq!(crypto_decrypt(a.clone(), "pw".into()), Ok("note".to_string()));
    // Surrounding whitespace is trimmed before decoding.
    assert_eq!(crypto_decrypt(format!("  {a}\n"), "pw".into()), Ok("note".to_string()));
    let other = seal("note", "pw", &[8u8; 16], &nonce).unwrap();
    assert_ne!(a, other);
}

#[test]
fn decrypt_errors() {
    assert_eq!(crypto_decrypt("***".into(), "pw".into()), Err("密文不是合法 base64".to_string()));
    assert_eq!(crypto_decrypt("AAAA".into(), "pw".into()), Err("密文过短或已损坏".to_string()));
    // 45 bytes starting with version 2.
    let mut raw = vec![2u8];
    raw.extend_from_slice(&[0u8; 44]);
    let text = base64_of(&raw);
    assert_eq!(crypto_decrypt(text, "pw".into()), Err("不支持的密文版本: 2".to_string()));
    let good = seal("note", "pw", &[1u8; 16], &[2u8; 12]).unwrap();
    assert_eq!(crypto_decrypt(good, "wrong".into()), Err("口令错误或密文已损坏".to_string()));
}

fn base64_of(bytes: &[u8]) -> String {
    const A: &[u8; 64] = b"ABCDEFGHIJKLMNOPQRSTUVWXYZabcdefghijklmnopqrstuvwxyz0123456789+/";
    let mut out = String::new();
    for chunk in bytes.chunks(3) {
        let b = [chunk[0], *chunk.get(1).unwrap_or(&0), *chunk.get(2).unwrap_or(&0)];
        let n = ((b[0] as u32) << 16) | ((b[1] as u32) << 8) | b[2] as u32;
        for i in 0..4 {
            if i <= chunk.len() {
                out.push(A[((n >> (18 - 6 * i)) & 63) as usize] as char);
            } else {
                out.push('=');
            }
        }
    }
    out
}
