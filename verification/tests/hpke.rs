use pa::circuit::bitvector_test;
use pa::error::Error;
use pa::flpcp::{Context, Prover};
use pa::hpke::{
    gen_keypair, get_privkey, hpke_decrypt, hpke_encrypt, open_envelope, seal_envelope, HPKEOut,
};
use pa::payload::{
    assemble_payloads, decrypt_to_inners, decrypt_to_payload, decrypt_to_payloadseed,
    gen_nested_encryptions, seal_payloads, Payload,
};
use pa::wire::{decode_payload, encode_payload};
use rand::Rng;
use uuid::Uuid;

#[test]
fn hpke_test() {
    let p = 18446744073709547521u64;
    let generator = 323234694403053661u64;
    let input_len = 100;
    let circuit = bitvector_test(p, input_len);
    let inputs = vec![1u64; input_len];
    let ctxt = Context { generator, circuit };
    let mut rng = rand::thread_rng();
    let prover = Prover { ctxt: ctxt.clone(), inputs, seed: rng.gen() };
    let (pi, _) = prover.gen_proofs().unwrap();
    let payload = Payload { uuid: Uuid::new_v4().as_u128(), index: 0, proof: pi.to_u64() };

    let (server_privkey, server_pubkey) = gen_keypair();

    let msg = encode_payload(&payload);
    let associated_data = b"";

    let hpke_out = hpke_encrypt(&msg, associated_data, &server_pubkey).unwrap();

    let decrypted_msg = hpke_decrypt(&server_privkey, &hpke_out, associated_data).unwrap();

    let decrypted_payload: Payload = decode_payload(&decrypted_msg[..]).unwrap();

    assert_eq!(decrypted_msg, msg);
    assert_eq!(decrypted_payload, payload);
}

#[test]
fn sealing_hides_and_keeps_the_length() {
    let (sk, pk) = gen_keypair();
    assert_eq!(sk.len(), 32);
    assert_eq!(pk.len(), 32);
    let msg = vec![7u8; 40];
    let out = hpke_encrypt(&msg, b"ad", &pk).unwrap();
    assert_eq!(out.ciphertext.len(), 40);
    assert_eq!(out.encapped_key.len(), 32);
    assert_eq!(out.tag.len(), 16);
    assert_ne!(out.ciphertext, msg);
    assert_eq!(hpke_decrypt(&sk, &out, b"ad"), Ok(msg));
}

#[test]
fn tampering_and_wrong_keys_are_refused() {
    let (sk, pk) = gen_keypair();
    let (other_sk, _) = gen_keypair();
    let msg = vec![1u8, 2, 3];
    let out = hpke_encrypt(&msg, b"", &pk).unwrap();
    assert_eq!(hpke_decrypt(&other_sk, &out, b""), Err(Error::MalformedPayload));
    assert_eq!(hpke_decrypt(&sk, &out, b"x"), Err(Error::MalformedPayload));
    let mut flipped = HPKEOut {
        encapped_key: out.encapped_key.clone(),
        ciphertext: out.ciphertext.clone(),
        tag: out.tag.clone(),
    };
    flipped.ciphertext[0] ^= 1;
    assert_eq!(hpke_decrypt(&sk, &flipped, b""), Err(Error::MalformedPayload));
    let short_tag = HPKEOut {
        encapped_key: out.encapped_key.clone(),
        ciphertext: out.ciphertext.clone(),
        tag: vec![0; 15],
    };
    assert_eq!(hpke_decrypt(&sk, &short_tag, b""), Err(Error::MalformedPayload));
    assert_eq!(hpke_decrypt(&vec![0; 31], &out, b""), Err(Error::MalformedPayload));
    assert!(matches!(hpke_encrypt(&msg, b"", &vec![0; 33]), Err(Error::MalformedPayload)));
}

#[test]
fn private_key_from_hex() {
    let text = "000102030405060708090a0b0c0d0e0f101112131415161718191a1b1c1d1e1f".to_string();
    let key = get_privkey(&text).unwrap();
    assert_eq!(key, (0u8..32).collect::<Vec<u8>>());
    assert_eq!(get_privkey(&"0001".to_string()), Err(Error::MalformedPayload));
    assert_eq!(get_privkey(&"zz".to_string()), Err(Error::MalformedPayload));
    assert_eq!(get_privkey(&"abc".to_string()), Err(Error::MalformedPayload));
}

#[test]
fn envelopes_round_trip() {
    let (sk, pk) = gen_keypair();
    let msg = vec![9u8; 10];
    let sealed = seal_envelope(&msg, &pk).unwrap();
    assert_eq!(sealed.len(), 8 + 32 + 8 + 10 + 8 + 16);
    assert_eq!(open_envelope(&sealed, &sk), Ok(msg));
    assert_eq!(open_envelope(&sealed[1..], &sk), Err(Error::MalformedPayload));
}

#[test]
fn nested_encryptions_unwrap_to_the_payloads() {
    let config = pa::config::Config {
        root_cert: String::new(),
        queries: String::new(),
        input_len: 3,
        prime: 4293918721,
        generator: 4293918720,
        proxy: vec![],
        aggregator: vec![],
        follower: vec![],
    };
    // 4293918720 = -1 generates the subgroup of order 2, for one input
    let (agg0_sk, agg0_pk) = gen_keypair();
    let (agg1_sk, agg1_pk) = gen_keypair();
    let (proxy0_sk, proxy0_pk) = gen_keypair();
    let (proxy1_sk, proxy1_pk) = gen_keypair();
    let outer =
        gen_nested_encryptions(&config, 5, &vec![1], &agg0_pk, &agg1_pk, &proxy0_pk, &proxy1_pk)
            .unwrap();
    assert_eq!(outer.len(), 2);
    let inner0 = decrypt_to_inners(&outer[0], &proxy0_sk).unwrap();
    let inner1 = decrypt_to_inners(&outer[1], &proxy1_sk).unwrap();
    assert_eq!(inner0, inner1);
    assert!(decrypt_to_inners(&outer[0], &proxy1_sk).is_err());
    let full = decrypt_to_payload(&inner0.left, &agg0_sk).unwrap();
    let seed = decrypt_to_payloadseed(&inner0.right, &agg1_sk).unwrap();
    assert_eq!(full.uuid, seed.uuid);
    assert_eq!(full.index, 5);
    assert_eq!(seed.index, 5);
    let whole = seed.proofseed.get_share().reconstruct(&full.proof.to_integer());
    assert_eq!(whole.x, vec![1]);
    assert!(decrypt_to_payload(&inner0.right, &agg1_sk).is_err());
    assert!(decrypt_to_payloadseed(&inner0.left, &agg0_sk).is_err());
}

#[test]
fn sealed_payloads_unwrap_to_the_same_payloads() {
    let (full, seeded) = assemble_payloads(9, &vec![1, 0, 1], 4293918721, 1, 3, 4, 77).unwrap();
    let (agg0_sk, agg0_pk) = gen_keypair();
    let (agg1_sk, agg1_pk) = gen_keypair();
    let (proxy0_sk, proxy0_pk) = gen_keypair();
    let (proxy1_sk, proxy1_pk) = gen_keypair();
    let outer = seal_payloads(&full, &seeded, &agg0_pk, &agg1_pk, &proxy0_pk, &proxy1_pk).unwrap();
    assert_eq!(outer.len(), 2);
    assert_ne!(outer[0], outer[1]);
    let inner0 = decrypt_to_inners(&outer[0], &proxy0_sk).unwrap();
    let inner1 = decrypt_to_inners(&outer[1], &proxy1_sk).unwrap();
    assert_eq!(inner0, inner1);
    assert!(decrypt_to_inners(&outer[1], &proxy0_sk).is_err());
    assert!(seal_payloads(&full, &seeded, &vec![0; 31], &agg1_pk, &proxy0_pk, &proxy1_pk).is_err());
    assert!(seal_payloads(&full, &seeded, &agg0_pk, &agg1_pk, &proxy0_pk, &vec![]).is_err());
    assert_eq!(decrypt_to_payload(&inner0.left, &agg0_sk), Ok(full));
    assert_eq!(decrypt_to_payloadseed(&inner0.right, &agg1_sk), Ok(seeded));
}
