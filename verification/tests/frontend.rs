use aes_gcm::aead::{Aead, KeyInit};
use aes_gcm::{Aes256Gcm, Nonce};
use lut_core::frontend::decrypt_frontend;

fn seal(key: &[u8; 32], nonce: &[u8; 12], plain: &[u8]) -> Vec<u8> {
    let cipher = Aes256Gcm::new_from_slice(key).unwrap();
    cipher.encrypt(Nonce::from_slice(nonce), plain).unwrap()
}

#[test]
fn decrypt_frontend_opens_a_sealed_page() {
    let key = [7u8; 32];
    let nonce = [3u8; 12];
    let page = b"<html><body>lut studio</body></html>";
    let sealed = seal(&key, &nonce, page);
    assert_eq!(sealed.len(), page.len() + 16);
    assert_eq!(decrypt_frontend(&key, &nonce, &sealed), Some(page.to_vec()));
}

#[test]
fn decrypt_frontend_refuses_a_tampered_page() {
    let key = [7u8; 32];
    let nonce = [3u8; 12];
    let mut sealed = seal(&key, &nonce, b"page");
    sealed[0] ^= 1;
    assert_eq!(decrypt_frontend(&key, &nonce, &sealed), None);
}

#[test]
fn decrypt_frontend_refuses_a_wrong_key() {
    let sealed = seal(&[7u8; 32], &[3u8; 12], b"page");
    assert_eq!(decrypt_frontend(&[8u8; 32], &[3u8; 12], &sealed), None);
}

#[test]
fn decrypt_frontend_refuses_a_message_shorter_than_its_tag() {
    assert_eq!(decrypt_frontend(&[0u8; 32], &[0u8; 12], &[0u8; 15]), None);
}

#[test]
fn decrypt_frontend_opens_an_empty_page() {
    let sealed = seal(&[1u8; 32], &[2u8; 12], b"");
    assert_eq!(decrypt_frontend(&[1u8; 32], &[2u8; 12], &sealed), Some(Vec::new()));
}
