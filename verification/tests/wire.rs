use pa::error::Error;
use pa::flpcp::{ProofSeed, Proofu64, QueryRes};
use pa::hpke::HPKEOut;
use pa::payload::{InnerCiphertexts, Payload, PayloadSeed};
use pa::wire::{
    decode_hpke_out, decode_inner, decode_payload, decode_payload_seed, decode_query_res,
    encode_hpke_out, encode_inner, encode_payload, encode_payload_seed, encode_query_res,
};
use uuid::Uuid;

fn sample_payload() -> Payload {
    Payload {
        uuid: 0x936DA01F9ABD4D9D80C702AF85C822A8,
        index: 1042,
        proof: Proofu64 {
            x: vec![1, 0, u64::MAX],
            w: vec![],
            z: vec![7, 8],
            c: vec![0x0102030405060708, 2, 3, 4, 5],
            q: 4293918721,
        },
    }
}

fn sample_seed() -> PayloadSeed {
    PayloadSeed {
        uuid: 0x936DA01F9ABD4D9D80C702AF85C822A8,
        index: 7,
        proofseed: ProofSeed { seed: 99, x_len: 3, w_len: 0, z_len: 2, c_len: 7, q: 65537 },
    }
}

#[test]
fn payload_bytes_are_laid_out_field_by_field() {
    let p = Payload {
        uuid: 0x0102030405060708090a0b0c0d0e0f10,
        index: 0x11223344,
        proof: Proofu64 { x: vec![0x0807060504030201], w: vec![], z: vec![], c: vec![], q: 5 },
    };
    let mut expected: Vec<u8> = vec![16, 0, 0, 0, 0, 0, 0, 0];
    expected.extend(1u8..=16);
    expected.extend([0x44, 0x33, 0x22, 0x11]);
    expected.extend([1, 0, 0, 0, 0, 0, 0, 0, 1, 2, 3, 4, 5, 6, 7, 8]);
    expected.extend([0u8; 24]);
    expected.extend([5, 0, 0, 0, 0, 0, 0, 0]);
    assert_eq!(encode_payload(&p), expected);
}

#[test]
fn payload_bytes_agree_with_bincode() {
    let p = sample_payload();
    let id = Uuid::from_u128(p.uuid).as_bytes().to_vec();
    let reference = bincode::serialize(&(
        id,
        p.index,
        (p.proof.x.clone(), p.proof.w.clone(), p.proof.z.clone(), p.proof.c.clone(), p.proof.q),
    ))
    .unwrap();
    assert_eq!(encode_payload(&p), reference);

    let s = sample_seed();
    let id = Uuid::from_u128(s.uuid).as_bytes().to_vec();
    let ps = &s.proofseed;
    let reference = bincode::serialize(&(
        id,
        s.index,
        (ps.seed, ps.x_len, ps.w_len, ps.z_len, ps.c_len, ps.q),
    ))
    .unwrap();
    assert_eq!(encode_payload_seed(&s), reference);

    let out = HPKEOut { encapped_key: vec![1; 32], ciphertext: vec![2; 5], tag: vec![3; 16] };
    let reference =
        bincode::serialize(&(out.encapped_key.clone(), out.ciphertext.clone(), out.tag.clone()))
            .unwrap();
    assert_eq!(encode_hpke_out(&out), reference);

    let inner = InnerCiphertexts { left: vec![4; 3], right: vec![] };
    let reference = bincode::serialize(&(inner.left.clone(), inner.right.clone())).unwrap();
    assert_eq!(encode_inner(&inner), reference);
}

#[test]
fn decoding_inverts_encoding() {
    let p = sample_payload();
    assert_eq!(decode_payload(&encode_payload(&p)), Ok(p));
    let s = sample_seed();
    assert_eq!(decode_payload_seed(&encode_payload_seed(&s)), Ok(s));
    let r = QueryRes { a: 1, a1: 2, d1: 3, a2: 4, d2: 5, b: 6, q: u64::MAX };
    let bytes = encode_query_res(&r);
    assert_eq!(bytes.len(), 56);
    assert_eq!(&bytes[48..], &[255u8; 8]);
    assert_eq!(decode_query_res(&bytes), Ok(r));
    let out = HPKEOut { encapped_key: vec![1; 32], ciphertext: vec![], tag: vec![3; 16] };
    let back = decode_hpke_out(&encode_hpke_out(&out)).unwrap();
    assert_eq!(back.encapped_key, out.encapped_key);
    assert_eq!(back.ciphertext, out.ciphertext);
    assert_eq!(back.tag, out.tag);
    let inner = InnerCiphertexts { left: vec![4; 3], right: vec![9] };
    assert_eq!(decode_inner(&encode_inner(&inner)), Ok(inner));
}

#[test]
fn malformed_bytes_are_refused() {
    let bytes = encode_payload(&sample_payload());
    for cut in 0..bytes.len() {
        assert_eq!(decode_payload(&bytes[..cut]), Err(Error::MalformedPayload));
    }
    let mut longer = bytes.clone();
    longer.push(0);
    assert_eq!(decode_payload(&longer), Err(Error::MalformedPayload));
    let mut bad_id = bytes.clone();
    bad_id[0] = 15;
    assert_eq!(decode_payload(&bad_id), Err(Error::MalformedPayload));
    let mut huge = bytes.clone();
    for b in huge[28..36].iter_mut() {
        *b = 255;
    }
    assert_eq!(decode_payload(&huge), Err(Error::MalformedPayload));

    let seed = encode_payload_seed(&sample_seed());
    assert_eq!(seed.len(), 52);
    assert_eq!(decode_payload_seed(&seed[..51]), Err(Error::MalformedPayload));
    let mut bad_id = seed.clone();
    bad_id[1] = 1;
    assert_eq!(decode_payload_seed(&bad_id), Err(Error::MalformedPayload));
    assert_eq!(decode_payload_seed(&bytes), Err(Error::MalformedPayload));

    assert_eq!(decode_query_res(&[0u8; 55]), Err(Error::MalformedPayload));
    assert!(decode_hpke_out(&[1, 0, 0, 0, 0, 0, 0, 0]).is_err());
    assert!(decode_inner(&[0u8; 15]).is_err());
    assert!(decode_inner(&[0u8; 17]).is_err());
    assert_eq!(decode_inner(&[0u8; 16]), Ok(InnerCiphertexts { left: vec![], right: vec![] }));
}
