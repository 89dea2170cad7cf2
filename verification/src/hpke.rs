//! The sealed envelopes that carry payloads between the tiers: hybrid
//! public-key encryption with X25519, HKDF and ChaCha20-Poly1305.
//!
//! Keys travel through this module as their byte encodings.

use vstd::prelude::*;
use crate::error::Error;
use crate::wire::{decode_hpke_out, enc_hpke_out, encode_hpke_out, lemma_hpke_out_unique};
use hpke::aead::{AeadTag, ChaCha20Poly1305};
use hpke::kdf::HkdfSha384;
use hpke::kem::X25519HkdfSha256;
use hpke::kex::KeyExchange;
use hpke::{Deserializable, EncappedKey, Kem, OpModeR, OpModeS, Serializable};
use rand::rngs::StdRng;
use rand::SeedableRng;

verus! {

/// The context string that binds every envelope to this application.
pub const INFO_STR: &'static str = "Private analytics";

/// The number of bytes of a private key, of a public key and of an
/// encapsulated key.
pub const KEY_BYTES: usize = 32;

/// The number of bytes of an authentication tag.
pub const TAG_BYTES: usize = 16;

/// A sealed message: the encapsulated key, the ciphertext, and the tag that
/// authenticates it.
#[derive(Debug)]
pub struct HPKEOut {
    pub encapped_key: Vec<u8>,
    pub ciphertext: Vec<u8>,
    pub tag: Vec<u8>,
}

/// The plaintext that opening a sealed message with the private key `sk`
/// gives, and `None` where a part does not decode or the tag does not
/// authenticate the ciphertext.
pub uninterp spec fn hpke_opened(
    sk: Seq<u8>,
    info: Seq<char>,
    encapped_key: Seq<u8>,
    ciphertext: Seq<u8>,
    tag: Seq<u8>,
    aad: Seq<u8>,
) -> Option<Seq<u8>>;

/// `single_shot_open` of hpke in base mode, on the byte encodings of its
/// arguments: the plaintext, which the arguments determine, or `None` where
/// hpke reports an error. The ciphertext is decrypted in place, so the
/// plaintext is as long as the ciphertext.
#[verifier::external_body]
fn open_base(sk: &Vec<u8>, info: &str, hpke_out: &HPKEOut, aad: &[u8]) -> (res: Option<Vec<u8>>)
    ensures
        hpke_opened(
            sk@,
            info@,
            hpke_out.encapped_key@,
            hpke_out.ciphertext@,
            hpke_out.tag@,
            aad@,
        ) == (match res {
            Some(v) => Some(v@),
            None => None,
        }),
        res matches Some(v) ==> v@.len() == hpke_out.ciphertext@.len(),
{
    let sk = <<X25519HkdfSha256 as Kem>::Kex as KeyExchange>::PrivateKey::from_bytes(sk).ok()?;
    let enc = EncappedKey::<<X25519HkdfSha256 as Kem>::Kex>::from_bytes(&hpke_out.encapped_key).ok()?;
    let tag = AeadTag::<ChaCha20Poly1305>::from_bytes(&hpke_out.tag).ok()?;
    let mut text = hpke_out.ciphertext.clone();
    hpke::single_shot_open::<ChaCha20Poly1305, HkdfSha384, X25519HkdfSha256>(
        &OpModeR::Base, &sk, &enc, info.as_bytes(), &mut text, aad, &tag,
    ).ok()?;
    Some(text)
}

/// The public key that belongs to the private key `sk`, both as their byte
/// encodings.
pub uninterp spec fn public_key_of(sk: Seq<u8>) -> Seq<u8>;

/// `single_shot_seal` of hpke in base mode, with randomness from the
/// operating system: the encapsulated key, the ciphertext and the tag, or
/// `None` where hpke reports an error. The message is encrypted in place, so
/// the ciphertext is as long as the message; the encapsulated key is an
/// X25519 public key of 32 bytes and the tag has the 16 bytes of
/// Poly1305. Whatever was drawn, the sealed message is one that every
/// private key of `pk` opens to `msg` under the same context string and
/// associated data: that is what the scheme is for.
#[verifier::external_body]
fn seal_base(pk: &Vec<u8>, info: &str, msg: &[u8], aad: &[u8]) -> (res: Option<HPKEOut>)
    ensures
        res matches Some(out) ==> out.ciphertext@.len() == msg@.len(),
        res matches Some(out) ==> out.encapped_key@.len() == KEY_BYTES,
        res matches Some(out) ==> out.tag@.len() == TAG_BYTES,
        res matches Some(out) ==> forall|sk: Seq<u8>|
            sk.len() == KEY_BYTES && #[trigger] public_key_of(sk) == pk@ ==> hpke_opened(
                sk,
                info@,
                out.encapped_key@,
                out.ciphertext@,
                out.tag@,
                aad@,
            ) == Some(msg@),
{
    let pk = <<X25519HkdfSha256 as Kem>::Kex as KeyExchange>::PublicKey::from_bytes(pk).ok()?;
    let mut text = msg.to_vec();
    let (enc, tag) = hpke::single_shot_seal::<ChaCha20Poly1305, HkdfSha384, X25519HkdfSha256, _>(
        &OpModeS::Base, &pk, info.as_bytes(), &mut text, aad, &mut StdRng::from_entropy(),
    ).ok()?;
    Some(HPKEOut {
        encapped_key: enc.to_bytes().to_vec(),
        ciphertext: text,
        tag: tag.to_bytes().to_vec(),
    })
}

/// `Kem::gen_keypair` of hpke for X25519, with randomness from the operating
/// system: the byte encodings of a fresh private key and of its public key,
/// each of 32 bytes. The public key is the one that hpke derives from the
/// private key.
#[verifier::external_body]
fn fresh_keypair() -> (keys: (Vec<u8>, Vec<u8>))
    ensures
        keys.0@.len() == KEY_BYTES,
        keys.1@.len() == KEY_BYTES,
        keys.1@ == public_key_of(keys.0@),
{
    let (sk, pk) = X25519HkdfSha256::gen_keypair(&mut StdRng::from_entropy());
    (sk.to_bytes().to_vec(), pk.to_bytes().to_vec())
}

/// A fresh private key and its public key, as their byte encodings.
pub fn gen_keypair() -> (keys: (Vec<u8>, Vec<u8>))
    ensures
        keys.0@.len() == KEY_BYTES,
        keys.1@.len() == KEY_BYTES,
        keys.1@ == public_key_of(keys.0@),
{
    fresh_keypair()
}

/// The value of a hexadecimal digit, of either case.
pub open spec fn hex_value(c: char) -> Option<u8> {
    let n = c as u32;
    if 48 <= n <= 57 {
        Some((n - 48) as u8)
    } else if 97 <= n <= 102 {
        Some((n - 87) as u8)
    } else if 65 <= n <= 70 {
        Some((n - 55) as u8)
    } else {
        None
    }
}

/// What the hexadecimal text `s` decodes to: one byte for each pair of
/// digits, the high digit first; `None` where `s` has an odd number of
/// characters or one that is no hexadecimal digit.
pub open spec fn hex_decoded(s: Seq<char>) -> Option<Seq<u8>> {
    if s.len() % 2 == 0 && forall|i: int| 0 <= i < s.len() ==> hex_value(#[trigger] s[i]) is Some {
        Some(
            Seq::new(
                s.len() / 2,
                |i: int|
                    (hex_value(s[2 * i]).unwrap() * 16 + hex_value(s[2 * i + 1]).unwrap()) as u8,
            ),
        )
    } else {
        None
    }
}

/// `hex::decode` of hex: the bytes that a hexadecimal text stands for, and
/// `None` where hex reports an odd length or an invalid character.
#[verifier::external_body]
fn decode_hex(s: &str) -> (res: Option<Vec<u8>>)
    ensures
        hex_decoded(s@) == (match res {
            Some(v) => Some(v@),
            None => None,
        }),
{
    hex::decode(s).ok()
}

/// The private key that the hexadecimal text `privkey_str` encodes.
///
/// Fails with `MalformedPayload` where the text is not hexadecimal or does
/// not hold as many bytes as a key has.
pub fn get_privkey(privkey_str: &String) -> (res: Result<Vec<u8>, Error>)
    ensures
        match res {
            Ok(key) => hex_decoded(privkey_str@) == Some(key@) && key@.len() == KEY_BYTES,
            Err(e) => e == Error::MalformedPayload && match hex_decoded(privkey_str@) {
                Some(bytes) => bytes.len() != KEY_BYTES,
                None => true,
            },
        },
{
    match decode_hex(privkey_str.as_str()) {
        Some(bytes) => {
            if bytes.len() == KEY_BYTES {
                Ok(bytes)
            } else {
                Err(Error::MalformedPayload)
            }
        },
        None => Err(Error::MalformedPayload),
    }
}

/// Whether the sealed message with the parts `encapped_key`, `ciphertext`
/// and `tag` is one to the public key `pk`: its parts have the lengths they
/// must have, and every private key of `pk` opens it to `msg` under the
/// associated data `aad`.
pub open spec fn seals(
    encapped_key: Seq<u8>,
    ciphertext: Seq<u8>,
    tag: Seq<u8>,
    pk: Seq<u8>,
    msg: Seq<u8>,
    aad: Seq<u8>,
) -> bool {
    &&& ciphertext.len() == msg.len()
    &&& encapped_key.len() == KEY_BYTES
    &&& tag.len() == TAG_BYTES
    &&& forall|sk: Seq<u8>|
        sk.len() == KEY_BYTES && #[trigger] public_key_of(sk) == pk ==> spec_hpke_decrypt(
            sk,
            encapped_key,
            ciphertext,
            tag,
            aad,
        ) == Some(msg)
}

/// Seals `msg` to the holder of the private key of `server_pk`. Whatever
/// randomness the sealing drew, every private key of `server_pk` opens the
/// sealed message to `msg`.
///
/// Fails with `MalformedPayload` where the key has not the length of a key,
/// or where the encryption reports an error.
pub fn hpke_encrypt(msg: &[u8], associated_data: &[u8], server_pk: &Vec<u8>) -> (res: Result<
    HPKEOut,
    Error,
>)
    ensures
        match res {
            Ok(out) => server_pk@.len() == KEY_BYTES && seals(
                out.encapped_key@,
                out.ciphertext@,
                out.tag@,
                server_pk@,
                msg@,
                associated_data@,
            ),
            Err(e) => e == Error::MalformedPayload,
        },
{
    if server_pk.len() != KEY_BYTES {
        return Err(Error::MalformedPayload);
    }
    match seal_base(server_pk, INFO_STR, msg, associated_data) {
        Some(out) => Ok(out),
        None => Err(Error::MalformedPayload),
    }
}

/// What opening a sealed message with the private key `server_sk` gives:
/// nothing where a part has not the length it must have, else what the
/// decryption gives.
pub open spec fn spec_hpke_decrypt(
    server_sk: Seq<u8>,
    encapped_key: Seq<u8>,
    ciphertext: Seq<u8>,
    tag: Seq<u8>,
    aad: Seq<u8>,
) -> Option<Seq<u8>> {
    if server_sk.len() != KEY_BYTES || encapped_key.len() != KEY_BYTES || tag.len() != TAG_BYTES {
        None
    } else {
        hpke_opened(server_sk, INFO_STR@, encapped_key, ciphertext, tag, aad)
    }
}

/// Opens the sealed message `hpke_out` with the private key `server_sk`.
///
/// Fails with `MalformedPayload` where the key, the encapsulated key or the
/// tag has not the length it must have, where a part does not decode, or
/// where the tag does not authenticate the ciphertext.
pub fn hpke_decrypt(server_sk: &Vec<u8>, hpke_out: &HPKEOut, associated_data: &[u8]) -> (res:
    Result<Vec<u8>, Error>)
    ensures
        match res {
            Ok(plaintext) => spec_hpke_decrypt(
                server_sk@,
                hpke_out.encapped_key@,
                hpke_out.ciphertext@,
                hpke_out.tag@,
                associated_data@,
            ) == Some(plaintext@) && plaintext@.len() == hpke_out.ciphertext@.len(),
            Err(e) => e == Error::MalformedPayload && spec_hpke_decrypt(
                server_sk@,
                hpke_out.encapped_key@,
                hpke_out.ciphertext@,
                hpke_out.tag@,
                associated_data@,
            ) is None,
        },
{
    if server_sk.len() != KEY_BYTES || hpke_out.encapped_key.len() != KEY_BYTES
        || hpke_out.tag.len() != TAG_BYTES {
        return Err(Error::MalformedPayload);
    }
    match open_base(server_sk, INFO_STR, hpke_out, associated_data) {
        Some(plaintext) => Ok(plaintext),
        None => Err(Error::MalformedPayload),
    }
}

/// Whether `contents` encode a sealed message that the private key `sk`
/// opens to `msg`, with no associated data.
pub open spec fn opens_to(contents: Seq<u8>, sk: Seq<u8>, msg: Seq<u8>) -> bool {
    exists|key: Seq<u8>, text: Seq<u8>, tag: Seq<u8>|
        key.len() <= u64::MAX && text.len() <= u64::MAX && tag.len() <= u64::MAX
            && #[trigger] enc_hpke_out(key, text, tag) == contents && spec_hpke_decrypt(
            sk,
            key,
            text,
            tag,
            Seq::empty(),
        ) == Some(msg)
}

/// An encoded sealed message opens to at most one message.
pub proof fn lemma_opens_unique(contents: Seq<u8>, sk: Seq<u8>, msg: Seq<u8>, msg2: Seq<u8>)
    requires
        opens_to(contents, sk, msg),
        opens_to(contents, sk, msg2),
    ensures
        msg == msg2,
{
    let (k, c, t) = choose|k: Seq<u8>, c: Seq<u8>, t: Seq<u8>|
        k.len() <= u64::MAX && c.len() <= u64::MAX && t.len() <= u64::MAX
            && #[trigger] enc_hpke_out(k, c, t) == contents && spec_hpke_decrypt(
            sk,
            k,
            c,
            t,
            Seq::empty(),
        ) == Some(msg);
    let (k2, c2, t2) = choose|k: Seq<u8>, c: Seq<u8>, t: Seq<u8>|
        k.len() <= u64::MAX && c.len() <= u64::MAX && t.len() <= u64::MAX
            && #[trigger] enc_hpke_out(k, c, t) == contents && spec_hpke_decrypt(
            sk,
            k,
            c,
            t,
            Seq::empty(),
        ) == Some(msg2);
    lemma_hpke_out_unique(k, c, t, k2, c2, t2);
}

/// Whether `bytes` encode a sealed message of the message `msg` to the
/// public key `pk`: a sealed message with a ciphertext as long as `msg`,
/// which every private key of `pk` opens to `msg`.
pub open spec fn sealed_to(bytes: Seq<u8>, pk: Seq<u8>, msg: Seq<u8>) -> bool {
    &&& exists|key: Seq<u8>, text: Seq<u8>, tag: Seq<u8>|
        #[trigger] enc_hpke_out(key, text, tag) == bytes && text.len() == msg.len()
    &&& forall|sk: Seq<u8>|
        sk.len() == KEY_BYTES && public_key_of(sk) == pk ==> #[trigger] opens_to(bytes, sk, msg)
}

/// Seals `msg` to the holder of the private key of `pk`, with no associated
/// data, and encodes the sealed message.
///
/// Fails as `hpke_encrypt` does.
pub fn seal_envelope(msg: &[u8], pk: &Vec<u8>) -> (res: Result<Vec<u8>, Error>)
    ensures
        match res {
            Ok(bytes) => pk@.len() == KEY_BYTES && sealed_to(bytes@, pk@, msg@),
            Err(e) => e == Error::MalformedPayload,
        },
{
    let aad: Vec<u8> = Vec::new();
    let length: usize = msg.len();
    match hpke_encrypt(msg, aad.as_slice(), pk) {
        Ok(out) => {
            let bytes = encode_hpke_out(&out);
            proof {
                assert(out.ciphertext@.len() == length);
                assert(aad@ =~= Seq::<u8>::empty());
                assert(enc_hpke_out(out.encapped_key@, out.ciphertext@, out.tag@) == bytes@);
                assert forall|sk: Seq<u8>|
                    sk.len() == KEY_BYTES && public_key_of(sk) == pk@ implies #[trigger] opens_to(
                    bytes@,
                    sk,
                    msg@,
                ) by {
                    assert(public_key_of(sk) == pk@);
                    assert(spec_hpke_decrypt(
                        sk,
                        out.encapped_key@,
                        out.ciphertext@,
                        out.tag@,
                        Seq::empty(),
                    ) == Some(msg@));
                    assert(enc_hpke_out(out.encapped_key@, out.ciphertext@, out.tag@) == bytes@);
                }
            }
            Ok(bytes)
        },
        Err(e) => Err(e),
    }
}

/// Decodes the sealed message in `contents` and opens it with the private
/// key `privkey`, with no associated data.
///
/// Fails with `MalformedPayload` where `contents` encode no sealed message
/// that the key opens.
pub fn open_envelope(contents: &[u8], privkey: &Vec<u8>) -> (res: Result<Vec<u8>, Error>)
    ensures
        match res {
            Ok(msg) => opens_to(contents@, privkey@, msg@),
            Err(e) => e == Error::MalformedPayload && forall|msg: Seq<u8>| !opens_to(
                contents@,
                privkey@,
                msg,
            ),
        },
{
    let hpke_out = match decode_hpke_out(contents) {
        Ok(out) => out,
        Err(e) => {
            return Err(Error::MalformedPayload);
        },
    };
    let aad: Vec<u8> = Vec::new();
    match hpke_decrypt(privkey, &hpke_out, aad.as_slice()) {
        Ok(msg) => {
            proof {
                assert(aad@ =~= Seq::<u8>::empty());
                assert(enc_hpke_out(hpke_out.encapped_key@, hpke_out.ciphertext@, hpke_out.tag@)
                    == contents@);
            }
            Ok(msg)
        },
        Err(e) => {
            proof {
                assert(aad@ =~= Seq::<u8>::empty());
                assert forall|msg: Seq<u8>| !opens_to(contents@, privkey@, msg) by {
                    if opens_to(contents@, privkey@, msg) {
                        let (k, c, t) = choose|k: Seq<u8>, c: Seq<u8>, t: Seq<u8>|
                            k.len() <= u64::MAX && c.len() <= u64::MAX && t.len() <= u64::MAX
                                && #[trigger] enc_hpke_out(k, c, t) == contents@
                                && spec_hpke_decrypt(privkey@, k, c, t, Seq::empty()) == Some(msg);
                        lemma_hpke_out_unique(
                            k,
                            c,
                            t,
                            hpke_out.encapped_key@,
                            hpke_out.ciphertext@,
                            hpke_out.tag@,
                        );
                    }
                }
            }
            Err(Error::MalformedPayload)
        },
    }
}

/// The round trip of sealing and opening: a sealed message to a public key
/// is opened by each private key of that key to the message, and to nothing
/// else.
pub proof fn lemma_envelope_round_trip(
    bytes: Seq<u8>,
    pk: Seq<u8>,
    sk: Seq<u8>,
    msg: Seq<u8>,
    opened: Seq<u8>,
)
    requires
        sealed_to(bytes, pk, msg),
        sk.len() == KEY_BYTES,
        public_key_of(sk) == pk,
        opens_to(bytes, sk, opened),
    ensures
        opened == msg,
{
    assert(opens_to(bytes, sk, msg));
    lemma_opens_unique(bytes, sk, msg, opened);
}

} // verus!
