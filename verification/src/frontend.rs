//! Opening the front-end bundle that ships sealed with AES-256-GCM.
use vstd::prelude::*;
use aes_gcm::aead::{Aead, KeyInit};
use aes_gcm::{Aes256Gcm, Nonce};

verus! {

/// Length in bytes of an AES-256 key.
pub const KEY_LEN: usize = 32;

/// Length in bytes of an AES-GCM nonce.
pub const NONCE_LEN: usize = 12;

/// Length in bytes of the authentication tag that ends a sealed message.
pub const TAG_LEN: usize = 16;

/// What AES-256-GCM (no associated data) opens `sealed` to under `key` and
/// `nonce`, or `None` where it refuses `sealed`: a message shorter than its
/// tag, one longer than the cipher allows, or one whose tag does not
/// authenticate it.
pub uninterp spec fn aes256gcm_open(key: Seq<u8>, nonce: Seq<u8>, sealed: Seq<u8>) -> Option<
    Seq<u8>,
>;

/// Calls `aes_gcm::Aes256Gcm::new` and `aead::Aead::decrypt` with no
/// associated data. Trusted to return `aes256gcm_open(key, nonce, sealed)`;
/// as the `aead` source shows, a message shorter than its tag is refused and
/// an opened message is the sealed one without its 16-byte tag. The key and
/// nonce conversions panic on other lengths, which `requires` leaves out.
#[verifier::external_body]
fn aes256gcm_decrypt(key: &[u8], nonce: &[u8], sealed: &[u8]) -> (res: Option<Vec<u8>>)
    requires
        key@.len() == KEY_LEN,
        nonce@.len() == NONCE_LEN,
    ensures
        res is Some <==> aes256gcm_open(key@, nonce@, sealed@) is Some,
        res matches Some(v) ==> aes256gcm_open(key@, nonce@, sealed@) == Some(v@),
        sealed@.len() < TAG_LEN ==> res is None,
        res matches Some(v) ==> v@.len() + TAG_LEN == sealed@.len(),
{
    let cipher = Aes256Gcm::new(aes_gcm::Key::<Aes256Gcm>::from_slice(key));
    cipher.decrypt(Nonce::from_slice(nonce), sealed).ok()
}

/// Opens the sealed front-end bundle with the application's key and nonce:
/// the plaintext where the tag authenticates the bundle, `None` otherwise.
pub fn decrypt_frontend(key: &[u8], nonce: &[u8], sealed: &[u8]) -> (res: Option<Vec<u8>>)
    requires
        key@.len() == KEY_LEN,
        nonce@.len() == NONCE_LEN,
    ensures
        res is Some <==> aes256gcm_open(key@, nonce@, sealed@) is Some,
        res matches Some(v) ==> aes256gcm_open(key@, nonce@, sealed@) == Some(v@),
        sealed@.len() < TAG_LEN ==> res is None,
        res matches Some(v) ==> v@.len() + TAG_LEN == sealed@.len(),
{
    aes256gcm_decrypt(key, nonce, sealed)
}

} // verus!
