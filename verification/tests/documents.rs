use nix_compute::attestation::{
    check_envelope, generate_key, key_file, signature_bytes, verify, Attestation, KeyFile,
    SignatureEnvelope, SigningIdentity, TrustStore, TrustedKey,
};
use nix_compute::canonical::{
    canonical_json, canonical_text, sha256_bytes, sha256_value, Hasher,
};
use nix_compute::encoding::decode_url;
use nix_compute::json::{Json, Members, Number};
use nix_compute::reading::{plain, read, read_text};

use base64::engine::general_purpose::URL_SAFE_NO_PAD;
use base64::Engine;
use ed25519_dalek::{Signer, SigningKey};

fn number(n: u64) -> Json {
    Json::unsigned(n)
}

fn payload(target: &str) -> Json {
    Members::new()
        .with("job_id", Json::text("abc"))
        .with("target_id", Json::text(target))
        .with("status", Json::text("succeeded"))
        .object()
}

fn copy_key(k: &KeyFile) -> KeyFile {
    KeyFile {
        algorithm: k.algorithm.clone(),
        center_id: k.center_id.clone(),
        key_id: k.key_id.clone(),
        private_key: k.private_key.clone(),
        public_key: k.public_key.clone(),
    }
}

fn copy_attestation(a: &Attestation) -> Attestation {
    Attestation {
        version: a.version,
        payload: a.payload.copy(),
        signature: SignatureEnvelope {
            algorithm: a.signature.algorithm.clone(),
            center_id: a.signature.center_id.clone(),
            key_id: a.signature.key_id.clone(),
            value: a.signature.value.clone(),
        },
    }
}

fn trusted(k: &KeyFile) -> TrustedKey {
    TrustedKey {
        center_id: k.center_id.clone(),
        key_id: k.key_id.clone(),
        public_key: k.public_key.clone(),
        revoked: false,
    }
}

fn secret() -> Vec<u8> {
    let mut v = Vec::new();
    for i in 0..32u8 {
        v.push(i);
    }
    v
}

#[test]
fn object_order_does_not_change_digest() {
    let left = Members::new().with("b", number(2)).with("a", number(1)).object();
    let right = Members::new().with("a", number(1)).with("b", number(2)).object();
    assert_eq!(sha256_value(&left).unwrap(), sha256_value(&right).unwrap());
}

#[test]
fn canonical_text_is_sorted_and_has_no_white_space() {
    let inner = Members::new().with("z", Json::Null).with("y", Json::Bool(true)).object();
    let list = Json::list(vec![number(1), Json::Bool(false), Json::text("t\"\\\n\u{1}ü")]);
    let value = Members::new().with("b", list).with("a", inner).object();
    let expected = "{\"a\":{\"y\":true,\"z\":null},\"b\":[1,false,\"t\\\"\\\\\\n\\u0001ü\"]}";
    assert_eq!(canonical_text(&value), expected);
    assert_eq!(canonical_json(&value).unwrap(), expected.as_bytes().to_vec());
}

#[test]
fn the_last_of_two_members_with_one_key_counts() {
    let value = Members::new().with("a", number(1)).with("a", number(2)).object();
    assert_eq!(canonical_text(&value), "{\"a\":2}");
}

#[test]
fn numbers_are_written_as_they_are() {
    let list = Json::list(vec![
        Json::Number(Number::Signed(-7)),
        Json::Number(Number::Signed(i64::MIN)),
        Json::Number(Number::Unsigned(u64::MAX)),
        Json::Number(Number::Written("0.001".to_string())),
    ]);
    assert_eq!(
        canonical_text(&list),
        "[-7,-9223372036854775808,18446744073709551615,0.001]"
    );
}

#[test]
fn documents_are_read_as_plain_values() {
    let read_back = |text: &str| canonical_text(&read(text.as_bytes()).unwrap());
    assert_eq!(
        read_back("{\"b\": [null, true, \"\\u00e9\\n\"], \"a\": {\"b\": -7, \"b\": 0.5}, \"c\": 18446744073709551615}"),
        "{\"a\":{\"b\":0.5},\"b\":[null,true,\"\u{e9}\\n\"],\"c\":18446744073709551615}"
    );
    assert_eq!(read_back("1e2"), "100.0");
    for text in ["", "[1,]", "{\"a\":}", "nul", "1 2"] {
        assert_eq!(
            read(text.as_bytes()).unwrap_err().message(),
            serde_json::from_str::<serde_json::Value>(text).unwrap_err().to_string()
        );
    }
    assert_eq!(read_text(b" \"x\\ty\" ").unwrap(), "x\ty");
    assert!(read_text(b"null").is_err());
}

#[test]
fn the_one_text_of_a_document_reads_back() {
    let inner = Members::new()
        .with("z", Json::Number(Number::Signed(i64::MIN)))
        .with("\u{1f600}", Json::Number(Number::Unsigned(u64::MAX)))
        .with("é", Json::text("\u{0}\u{1f}\"\\/\u{7f}\u{2028}"))
        .object();
    let list = Json::list(vec![number(0), inner, Json::Null, Json::list(vec![])]);
    let value = Members::new().with("b", list).with("a", Json::Bool(true)).object();
    let text = canonical_text(&value);
    let back = read(text.as_bytes()).unwrap();
    assert_eq!(canonical_text(&back), text);
    assert!(matches!(&back, Json::Object(m) if m.len() == 2 && m[0].0 == "a" && m[1].0 == "b"));
    assert!(matches!(
        back.get("b"),
        Some(Json::Array(items)) if items.len() == 4
            && matches!(&items[1], Json::Object(inside)
                if inside[0].0 == "z" && inside[1].0 == "é" && inside[2].0 == "\u{1f600}")
    ));
    let nested = |depth: usize| {
        let mut v = Json::Null;
        for _ in 0..depth {
            v = Json::list(vec![v]);
        }
        canonical_text(&v)
    };
    assert_eq!(canonical_text(&read(nested(127).as_bytes()).unwrap()), nested(127));
    assert!(read(nested(128).as_bytes()).is_err());
    assert_eq!(canonical_text(&read(b"-0").unwrap()), "-0.0");
}

#[test]
fn documents_held_already_need_no_text() {
    let mut value = serde_json::Value::from(1u8);
    for _ in 0..200 {
        value = serde_json::Value::Array(vec![value]);
    }
    let text = canonical_text(&plain(value));
    assert_eq!(text.len(), 401);
    assert_eq!(text.find('1'), Some(200));
}

#[test]
fn digests_do_not_depend_on_the_pieces() {
    let mut hasher = Hasher::new();
    hasher.update(b"a");
    hasher.update(b"");
    hasher.update(b"bc");
    assert_eq!(hasher.finish(), sha256_bytes(b"abc"));
    assert_eq!(
        Hasher::new().finish(),
        "e3b0c44298fc1c149afbf4c8996fb92427ae41e4649b934ca495991b7852b855"
    );
}

#[test]
fn digests_are_sha256_in_small_digits() {
    assert_eq!(
        sha256_bytes(b"abc"),
        "ba7816bf8f01cfea414140de5dae2223b00361a396177a9cb410ff61f20015ad"
    );
    assert_eq!(
        sha256_value(&Members::new().object()).unwrap(),
        sha256_bytes(b"{}")
    );
}

#[test]
fn base64_for_addresses_is_read_strictly() {
    assert_eq!(decode_url("_-8").unwrap(), vec![0xff, 0xef]);
    assert_eq!(decode_url("").unwrap(), Vec::<u8>::new());
    for text in ["_-8=", "/+8", "_-9", "A", "_-8 "] {
        assert!(decode_url(text).is_err(), "{text}");
    }
    assert_eq!(
        decode_url("!").unwrap_err(),
        URL_SAFE_NO_PAD.decode("!").unwrap_err().to_string()
    );
}

#[test]
fn signed_payload_verifies_against_trust_store() {
    let key = generate_key("center-a", "key-a");
    let mut trust = TrustStore { version: 1, centers: vec![trusted(&key)] };
    let attestation = SigningIdentity::load(copy_key(&key))
        .unwrap()
        .sign(payload("cuda"))
        .unwrap();
    assert!(verify(&attestation, &trust).is_ok());
    let mut tampered = copy_attestation(&attestation);
    tampered.payload = payload("metal");
    assert!(verify(&tampered, &trust).is_err());
    let mut tampered = copy_attestation(&attestation);
    tampered.signature.center_id = "another-center".to_string();
    assert!(verify(&tampered, &trust).is_err());
    let mut alias = trusted(&key);
    alias.center_id = "another-center".to_string();
    trust.centers.push(alias);
    assert!(verify(&tampered, &trust).is_err());
    let mut legacy = copy_attestation(&attestation);
    legacy.version = 1;
    let raw: [u8; 32] = URL_SAFE_NO_PAD.decode(&key.private_key).unwrap().try_into().unwrap();
    let signer = SigningKey::from_bytes(&raw);
    legacy.signature.value =
        URL_SAFE_NO_PAD.encode(signer.sign(&canonical_json(&legacy.payload).unwrap()).to_bytes());
    assert!(verify(&legacy, &trust).is_ok());
    trust.centers[0].revoked = true;
    assert!(verify(&attestation, &trust).is_err());
}

#[test]
fn verification_gives_the_digest_of_the_payload() {
    let key = key_file(&secret(), "center", "key");
    let trust = TrustStore { version: 1, centers: vec![trusted(&key)] };
    let signed = SigningIdentity::load(key).unwrap().sign(payload("cpu")).unwrap();
    assert_eq!(signed.version, 2);
    assert_eq!(signed.signature.algorithm, "Ed25519");
    assert_eq!(
        verify(&signed, &trust).unwrap(),
        sha256_value(&payload("cpu")).unwrap()
    );
}

#[test]
fn key_files_hold_the_pair_of_a_secret() {
    let key = key_file(&secret(), "center", "key");
    assert_eq!(key.algorithm, "Ed25519");
    assert_eq!(key.private_key, "AAECAwQFBgcICQoLDA0ODxAREhMUFRYXGBkaGxwdHh8");
    let known = hex::decode("9d61b19deffd5a60ba844af492ec2cc44449c5697b326919703bac031cae7f60");
    let public = hex::decode("d75a980182b10ab7d54bfed3c964073a0ee172f3daa62325af021a68f707511a");
    let key = key_file(&known.unwrap(), "center", "key");
    assert_eq!(key.public_key, URL_SAFE_NO_PAD.encode(public.unwrap()));
    let other = generate_key("center", "key");
    let third = generate_key("center", "key");
    assert_ne!(other.private_key, third.private_key);
    assert!(SigningIdentity::load(other).is_ok());
}

#[test]
fn broken_key_files_are_refused() {
    let good = key_file(&secret(), "center", "key");
    let fails = |change: &dyn Fn(&mut KeyFile)| {
        let mut k = copy_key(&good);
        change(&mut k);
        match SigningIdentity::load(k) {
            Ok(_) => "loaded".to_string(),
            Err(e) => e.message(),
        }
    };
    assert_eq!(fails(&|_| {}), "loaded");
    assert_eq!(fails(&|k| k.algorithm = "RSA".to_string()), "unsupported signing algorithm");
    assert_eq!(fails(&|k| k.private_key = "AAEC".to_string()), "private key must be 32 bytes");
    assert_eq!(
        fails(&|k| k.public_key = "AAEC".to_string()),
        "signing key public/private mismatch"
    );
    assert_eq!(fails(&|k| k.center_id = String::new()), "empty signing identity");
    assert_eq!(fails(&|k| k.key_id = String::new()), "empty signing identity");
    assert_eq!(
        fails(&|k| k.private_key = "?".to_string()),
        URL_SAFE_NO_PAD.decode("?").unwrap_err().to_string()
    );
}

#[test]
fn every_reason_against_an_attestation() {
    let key = key_file(&secret(), "center", "key");
    let signed = SigningIdentity::load(copy_key(&key)).unwrap().sign(payload("cpu")).unwrap();
    let reason = |change: &dyn Fn(&mut Attestation, &mut TrustStore)| {
        let mut a = copy_attestation(&signed);
        let mut t = TrustStore { version: 1, centers: vec![trusted(&key)] };
        change(&mut a, &mut t);
        match verify(&a, &t) {
            Ok(_) => "accepted".to_string(),
            Err(e) => e.message(),
        }
    };
    assert_eq!(reason(&|_, _| {}), "accepted");
    assert_eq!(reason(&|a, _| a.version = 3), "unsupported attestation version");
    assert_eq!(
        reason(&|a, _| a.signature.algorithm = "none".to_string()),
        "unsupported signature algorithm"
    );
    assert_eq!(reason(&|_, t| t.version = 2), "unsupported trust store version");
    assert_eq!(reason(&|_, t| t.centers[0].revoked = true), "signing key is not trusted");
    assert_eq!(
        reason(&|_, t| t.centers[0].public_key = "AAEC".to_string()),
        "public key must be 32 bytes"
    );
    let mut off_curve = vec![0u8; 32];
    off_curve[0] = 2;
    let off_curve = URL_SAFE_NO_PAD.encode(&off_curve);
    assert_eq!(
        reason(&|_, t| t.centers[0].public_key = off_curve.clone()),
        "signature error: Cannot decompress Edwards point"
    );
    assert_eq!(reason(&|a, _| a.signature.value = "AAEC".to_string()), "signature error");
    assert_eq!(
        reason(&|a, _| a.payload = payload("metal")),
        "signature error: Verification equation was not satisfied"
    );
    assert_eq!(
        reason(&|a, _| a.signature.value = "*".to_string()),
        URL_SAFE_NO_PAD.decode("*").unwrap_err().to_string()
    );
    assert_eq!(
        reason(&|_, t| t.centers[0].public_key = "*".to_string()),
        URL_SAFE_NO_PAD.decode("*").unwrap_err().to_string()
    );
}

#[test]
fn envelopes_are_checked_before_any_key() {
    let key = key_file(&secret(), "center", "key");
    let mut signed = SigningIdentity::load(key).unwrap().sign(payload("cpu")).unwrap();
    assert!(check_envelope(&signed).is_ok());
    signed.version = 1;
    assert!(check_envelope(&signed).is_ok());
    signed.version = 0;
    assert_eq!(
        check_envelope(&signed).unwrap_err().message(),
        "unsupported attestation version"
    );
}

#[test]
fn signed_bytes_bind_the_names_of_the_key() {
    let p = payload("cpu");
    let one = signature_bytes(2, "center", "key", &p).unwrap();
    assert_ne!(one, signature_bytes(2, "cente", "rkey", &p).unwrap());
    assert_ne!(one, signature_bytes(2, "center\",\"key_id\":\"key", "key", &p).unwrap());
    assert_eq!(
        signature_bytes(1, "center", "key", &p).unwrap(),
        canonical_json(&p).unwrap()
    );
    assert_eq!(
        String::from_utf8(signature_bytes(2, "c", "k", &Json::Null).unwrap()).unwrap(),
        "{\"algorithm\":\"Ed25519\",\"center_id\":\"c\",\"domain\":\"nix-compute-attestation\",\"key_id\":\"k\",\"payload\":null,\"version\":2}"
    );
    assert_eq!(
        signature_bytes(3, "c", "k", &p).unwrap_err().message(),
        "unsupported attestation version"
    );
}
