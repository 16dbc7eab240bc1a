//! Signed reports: who may sign, what is signed, and when a signature is accepted.

use vstd::prelude::*;
use vstd::utf8::{encode_utf8, encode_utf8_decode_utf8};
use crate::canonical::{
    canonical, canonical_entries, canonical_json, document_digest, lemma_put_all_ordered,
    lemma_quoted_apart, lemma_same_entries, member, members, quoted, sha256_value,
};
use crate::encoding::{
    base64_bytes, base64_fault, base64_of, base64_url, decode_url, law_base64_reads_back,
};
use crate::error::{outcome, Error};
use crate::json::{member_of, whole, Json, JsonView, Members};
use crate::map::{lemma_lookup_push, put_all};
use crate::model::fault;
use crate::text::{before, decimal, joined, lemma_first_joined, same};
use ed25519_dalek::{Signer, Verifier};

verus! {

/// A signed document.
#[derive(Debug)]
pub struct Attestation {
    pub version: u32,
    pub payload: Json,
    pub signature: SignatureEnvelope,
}

/// A signature, and the key that it is said to be of.
#[derive(Debug)]
pub struct SignatureEnvelope {
    pub algorithm: String,
    pub center_id: String,
    pub key_id: String,
    pub value: String,
}

/// A key pair of a center.
#[derive(Debug)]
pub struct KeyFile {
    pub algorithm: String,
    pub center_id: String,
    pub key_id: String,
    pub private_key: String,
    pub public_key: String,
}

/// The public keys that are trusted.
#[derive(Debug)]
pub struct TrustStore {
    pub version: u32,
    pub centers: Vec<TrustedKey>,
}

/// One public key of a center.
#[derive(Debug)]
pub struct TrustedKey {
    pub center_id: String,
    pub key_id: String,
    pub public_key: String,
    pub revoked: bool,
}

pub struct AttestationView {
    pub version: u32,
    pub payload: JsonView,
    pub signature: EnvelopeView,
}

pub struct EnvelopeView {
    pub algorithm: Seq<char>,
    pub center_id: Seq<char>,
    pub key_id: Seq<char>,
    pub value: Seq<char>,
}

pub struct KeyFileView {
    pub algorithm: Seq<char>,
    pub center_id: Seq<char>,
    pub key_id: Seq<char>,
    pub private_key: Seq<char>,
    pub public_key: Seq<char>,
}

pub struct TrustStoreView {
    pub version: u32,
    pub centers: Seq<TrustedKeyView>,
}

pub struct TrustedKeyView {
    pub center_id: Seq<char>,
    pub key_id: Seq<char>,
    pub public_key: Seq<char>,
    pub revoked: bool,
}

/// Who signs: a secret key and the names it goes under.
pub struct IdentityView {
    pub secret: Seq<u8>,
    pub center_id: Seq<char>,
    pub key_id: Seq<char>,
}

impl View for Attestation {
    type V = AttestationView;

    open spec fn view(&self) -> AttestationView {
        AttestationView {
            version: self.version,
            payload: self.payload@,
            signature: self.signature@,
        }
    }
}

impl View for SignatureEnvelope {
    type V = EnvelopeView;

    open spec fn view(&self) -> EnvelopeView {
        EnvelopeView {
            algorithm: self.algorithm@,
            center_id: self.center_id@,
            key_id: self.key_id@,
            value: self.value@,
        }
    }
}

impl View for KeyFile {
    type V = KeyFileView;

    open spec fn view(&self) -> KeyFileView {
        KeyFileView {
            algorithm: self.algorithm@,
            center_id: self.center_id@,
            key_id: self.key_id@,
            private_key: self.private_key@,
            public_key: self.public_key@,
        }
    }
}

impl View for TrustStore {
    type V = TrustStoreView;

    open spec fn view(&self) -> TrustStoreView {
        TrustStoreView {
            version: self.version,
            centers: self.centers@.map_values(|k: TrustedKey| k@),
        }
    }
}

impl View for TrustedKey {
    type V = TrustedKeyView;

    open spec fn view(&self) -> TrustedKeyView {
        TrustedKeyView {
            center_id: self.center_id@,
            key_id: self.key_id@,
            public_key: self.public_key@,
            revoked: self.revoked,
        }
    }
}

// ------------------------------------------------------------- Ed25519

/// The public key of a secret key.
pub uninterp spec fn public_of(secret: Seq<u8>) -> Seq<u8>;

/// The signature of a message under a secret key.
pub uninterp spec fn signature_of(secret: Seq<u8>, message: Seq<u8>) -> Seq<u8>;

/// Whether bytes are the compressed form of a point, and so a public key.
pub uninterp spec fn is_point(public: Seq<u8>) -> bool;

/// Whether a signature of a message is accepted under a public key, and what is said
/// where it is not.
pub uninterp spec fn acceptance(
    public: Seq<u8>,
    message: Seq<u8>,
    signature: Seq<u8>,
) -> Result<(), Seq<char>>;

/// `ed25519_dalek::SigningKey::generate`: a new secret key of 32 bytes from the random
/// numbers of the operating system. Which key it is depends on chance, so nothing is
/// said of it but its length.
#[verifier::external_body]
fn random_secret() -> (r: Vec<u8>)
    ensures
        r@.len() == 32,
{
    ed25519_dalek::SigningKey::generate(&mut rand_core::OsRng).to_bytes().to_vec()
}

/// `ed25519_dalek::SigningKey::verifying_key`: the public key of a secret key, 32
/// bytes that `VerifyingKey::from_bytes` takes.
#[verifier::external_body]
fn public_key(secret: &[u8]) -> (r: Vec<u8>)
    requires
        secret@.len() == 32,
    ensures
        r@ == public_of(secret@),
        r@.len() == 32,
        is_point(r@),
{
    let secret: [u8; 32] = secret.try_into().unwrap();
    ed25519_dalek::SigningKey::from_bytes(&secret).verifying_key().to_bytes().to_vec()
}

/// `ed25519_dalek::SigningKey::sign`: the signature of a message, 64 bytes, that
/// `VerifyingKey::verify` accepts for this message under the public key of the secret.
#[verifier::external_body]
fn sign_message(secret: &[u8], message: &[u8]) -> (r: Vec<u8>)
    requires
        secret@.len() == 32,
    ensures
        r@ == signature_of(secret@, message@),
        r@.len() == 64,
        acceptance(public_of(secret@), message@, r@) is Ok,
{
    let secret: [u8; 32] = secret.try_into().unwrap();
    ed25519_dalek::SigningKey::from_bytes(&secret).sign(message).to_bytes().to_vec()
}

/// `ed25519_dalek::VerifyingKey::from_bytes`: fails with this one message where the
/// bytes are no point of the curve.
#[verifier::external_body]
fn check_point(public: &[u8]) -> (r: Result<(), String>)
    requires
        public@.len() == 32,
    ensures
        r is Ok <==> is_point(public@),
        r matches Err(m) ==> m@ == "signature error: Cannot decompress Edwards point"@,
{
    let public: [u8; 32] = public.try_into().unwrap();
    ed25519_dalek::VerifyingKey::from_bytes(&public).map(|_| ()).map_err(|e| e.to_string())
}

/// `ed25519_dalek::VerifyingKey::verify`: whether the signature of the message is
/// accepted, and the message of the failure where it is not. Both depend on the three
/// arguments alone.
#[verifier::external_body]
fn check_signature(public: &[u8], message: &[u8], signature: &[u8]) -> (r: Result<(), String>)
    requires
        public@.len() == 32,
        is_point(public@),
        signature@.len() == 64,
    ensures
        match r {
            Ok(_) => acceptance(public@, message@, signature@) is Ok,
            Err(m) => acceptance(public@, message@, signature@) matches Err(n) && n == m@,
        },
{
    let public: [u8; 32] = public.try_into().unwrap();
    let signature: [u8; 64] = signature.try_into().unwrap();
    let signature = ed25519_dalek::Signature::from_bytes(&signature);
    let key = ed25519_dalek::VerifyingKey::from_bytes(&public).unwrap();
    key.verify(message, &signature).map_err(|e| e.to_string())
}

// ---------------------------------------------------------------- keys

/// The key file of a secret key.
pub open spec fn key_file_of(
    secret: Seq<u8>,
    center_id: Seq<char>,
    key_id: Seq<char>,
) -> KeyFileView {
    KeyFileView {
        algorithm: "Ed25519"@,
        center_id,
        key_id,
        private_key: base64_of(secret, true),
        public_key: base64_of(public_of(secret), true),
    }
}

/// Whether a value is the key file of some secret key under these names.
pub open spec fn is_key_file(k: KeyFileView, center_id: Seq<char>, key_id: Seq<char>) -> bool {
    exists|secret: Seq<u8>|
        secret.len() == 32 && is_point(#[trigger] public_of(secret)) && k == key_file_of(
            secret,
            center_id,
            key_id,
        )
}

/// The key file of a secret key.
pub fn key_file(secret: &Vec<u8>, center_id: &str, key_id: &str) -> (r: KeyFile)
    requires
        secret@.len() == 32,
    ensures
        r@ == key_file_of(secret@, center_id@, key_id@),
        is_point(public_of(secret@)),
{
    let public = public_key(secret.as_slice());
    KeyFile {
        algorithm: "Ed25519".to_owned(),
        center_id: center_id.to_owned(),
        key_id: key_id.to_owned(),
        private_key: base64_url(secret.as_slice()),
        public_key: base64_url(public.as_slice()),
    }
}

/// A new key pair for a center.
pub fn generate_key(center_id: &str, key_id: &str) -> (r: KeyFile)
    ensures
        is_key_file(r@, center_id@, key_id@),
{
    let secret = random_secret();
    let r = key_file(&secret, center_id, key_id);
    assert(is_point(public_of(secret@)));
    r
}

/// A key pair that signs.
pub struct SigningIdentity {
    secret: Vec<u8>,
    center_id: String,
    key_id: String,
}

impl View for SigningIdentity {
    type V = IdentityView;

    closed spec fn view(&self) -> IdentityView {
        IdentityView {
            secret: self.secret@,
            center_id: self.center_id@,
            key_id: self.key_id@,
        }
    }
}

/// The identity in a key file.
pub open spec fn identity_of(k: KeyFileView) -> Result<IdentityView, Seq<Seq<char>>> {
    if k.algorithm != "Ed25519"@ {
        Err(seq!["unsupported signing algorithm"@])
    } else {
        match base64_bytes(k.private_key) {
            None => Err(seq![base64_fault(k.private_key)]),
            Some(secret) => if secret.len() != 32 {
                Err(seq!["private key must be 32 bytes"@])
            } else if base64_of(public_of(secret), true) != k.public_key {
                Err(seq!["signing key public/private mismatch"@])
            } else if k.center_id.len() == 0 || k.key_id.len() == 0 {
                Err(seq!["empty signing identity"@])
            } else {
                Ok(IdentityView { secret, center_id: k.center_id, key_id: k.key_id })
            },
        }
    }
}

/// What is signed in the second version.
pub open spec fn envelope_members(center: Seq<char>, key: Seq<char>, payload: JsonView) -> Seq<
    (Seq<char>, JsonView),
> {
    seq![
        ("domain"@, JsonView::Text("nix-compute-attestation"@)),
        ("version"@, whole(2)),
        ("algorithm"@, JsonView::Text("Ed25519"@)),
        ("center_id"@, JsonView::Text(center)),
        ("key_id"@, JsonView::Text(key)),
        ("payload"@, payload),
    ]
}

/// The bytes that are signed. The first version covers the payload alone; the second
/// binds the names of the key too.
pub open spec fn signed_bytes(
    version: u32,
    center: Seq<char>,
    key: Seq<char>,
    payload: JsonView,
) -> Seq<u8> {
    encode_utf8(
        canonical(
            if version == 1 {
                payload
            } else {
                JsonView::Object(envelope_members(center, key, payload))
            },
        ),
    )
}

/// A payload under the signature of an identity.
pub open spec fn signed(who: IdentityView, payload: JsonView) -> AttestationView {
    AttestationView {
        version: 2,
        payload,
        signature: EnvelopeView {
            algorithm: "Ed25519"@,
            center_id: who.center_id,
            key_id: who.key_id,
            value: base64_of(
                signature_of(who.secret, signed_bytes(2, who.center_id, who.key_id, payload)),
                true,
            ),
        },
    }
}

impl SigningIdentity {
    /// The secret key and its public key have 32 bytes each.
    #[verifier::type_invariant]
    spec fn key_pair(self) -> bool {
        &&& self.secret@.len() == 32
        &&& public_of(self.secret@).len() == 32
        &&& is_point(public_of(self.secret@))
    }

    /// The identity in a key file.
    pub fn load(key: KeyFile) -> (r: Result<SigningIdentity, Error>)
        ensures
            outcome(r) == identity_of(key@),
    {
        if !same(key.algorithm.as_str(), "Ed25519") {
            return Err(Error::new("unsupported signing algorithm"));
        }
        let secret = match decode_url(key.private_key.as_str()) {
            Ok(b) => b,
            Err(m) => {
                return Err(Error::of(m));
            },
        };
        if secret.len() != 32 {
            return Err(Error::new("private key must be 32 bytes"));
        }
        let public = public_key(secret.as_slice());
        if !same(base64_url(public.as_slice()).as_str(), key.public_key.as_str()) {
            return Err(Error::new("signing key public/private mismatch"));
        }
        if key.center_id.as_str().unicode_len() == 0 || key.key_id.as_str().unicode_len() == 0 {
            return Err(Error::new("empty signing identity"));
        }
        Ok(SigningIdentity { secret, center_id: key.center_id, key_id: key.key_id })
    }

    /// Signs a payload. Every store that trusts the key accepts the signature.
    pub fn sign(&self, payload: Json) -> (r: Result<Attestation, Error>)
        ensures
            r is Ok,
            r->Ok_0@ == signed(self@, payload@),
            forall|t: TrustStoreView|
                trusts(t, self@) ==> #[trigger] verdict(r->Ok_0@, t) == Ok::<
                    Seq<char>,
                    Seq<Seq<char>>,
                >(document_digest(payload@)),
    {
        proof {
            use_type_invariant(self);
        }
        let bytes = match signature_bytes(
            2,
            self.center_id.as_str(),
            self.key_id.as_str(),
            &payload,
        ) {
            Ok(b) => b,
            Err(e) => {
                return Err(e);
            },
        };
        let signature = sign_message(self.secret.as_slice(), bytes.as_slice());
        proof {
            law_base64_reads_back(signature@);
            law_base64_reads_back(public_of(self.secret@));
        }
        Ok(
            Attestation {
                version: 2,
                payload,
                signature: SignatureEnvelope {
                    algorithm: "Ed25519".to_owned(),
                    center_id: self.center_id.clone(),
                    key_id: self.key_id.clone(),
                    value: base64_url(signature.as_slice()),
                },
            },
        )
    }
}

/// The bytes that are signed.
pub fn signature_bytes(version: u32, center: &str, key: &str, payload: &Json) -> (r: Result<
    Vec<u8>,
    Error,
>)
    ensures
        match r {
            Ok(b) => (version == 1 || version == 2) && b@ == signed_bytes(
                version,
                center@,
                key@,
                payload@,
            ),
            Err(e) => version != 1 && version != 2 && e@
                == seq!["unsupported attestation version"@],
        },
{
    if version == 1 {
        canonical_json(payload)
    } else if version == 2 {
        let whole = Members::new().with("domain", Json::text("nix-compute-attestation")).with(
            "version",
            Json::unsigned(2),
        ).with("algorithm", Json::text("Ed25519")).with("center_id", Json::text(center)).with(
            "key_id",
            Json::text(key),
        ).with("payload", payload.copy()).object();
        assert(whole@->Object_0 =~= envelope_members(center@, key@, payload@));
        canonical_json(&whole)
    } else {
        Err(Error::new("unsupported attestation version"))
    }
}

// --------------------------------------------------------------- trust

/// What is known of an attestation before any key is looked up.
pub open spec fn envelope_check(a: AttestationView) -> Result<(), Seq<Seq<char>>> {
    if a.version != 1 && a.version != 2 {
        fault("unsupported attestation version"@)
    } else if a.signature.algorithm != "Ed25519"@ {
        fault("unsupported signature algorithm"@)
    } else {
        Ok(())
    }
}

/// Whether a key answers to the names, and is not revoked.
pub open spec fn answers(k: TrustedKeyView, center_id: Seq<char>, key_id: Seq<char>) -> bool {
    k.center_id == center_id && k.key_id == key_id && !k.revoked
}

/// The first key that answers.
pub open spec fn first_answer(
    keys: Seq<TrustedKeyView>,
    center_id: Seq<char>,
    key_id: Seq<char>,
) -> Option<TrustedKeyView>
    decreases keys.len(),
{
    if keys.len() == 0 {
        None
    } else if answers(keys[0], center_id, key_id) {
        Some(keys[0])
    } else {
        first_answer(keys.skip(1), center_id, key_id)
    }
}

/// What comes of holding a signature against a public key: the digest of the payload.
pub open spec fn judged(a: AttestationView, k: TrustedKeyView) -> Result<
    Seq<char>,
    Seq<Seq<char>>,
> {
    match base64_bytes(k.public_key) {
        None => Err(seq![base64_fault(k.public_key)]),
        Some(public) => if public.len() != 32 {
            Err(seq!["public key must be 32 bytes"@])
        } else if !is_point(public) {
            Err(seq!["signature error: Cannot decompress Edwards point"@])
        } else {
            match base64_bytes(a.signature.value) {
                None => Err(seq![base64_fault(a.signature.value)]),
                Some(signature) => if signature.len() != 64 {
                    Err(seq!["signature error"@])
                } else {
                    match acceptance(
                        public,
                        signed_bytes(
                            a.version,
                            a.signature.center_id,
                            a.signature.key_id,
                            a.payload,
                        ),
                        signature,
                    ) {
                        Err(m) => Err(seq![m]),
                        Ok(_) => Ok(document_digest(a.payload)),
                    }
                },
            }
        },
    }
}

/// What comes of holding an attestation against a trust store.
pub open spec fn verdict(a: AttestationView, t: TrustStoreView) -> Result<
    Seq<char>,
    Seq<Seq<char>>,
> {
    match envelope_check(a) {
        Err(e) => Err(e),
        Ok(_) => if t.version != 1 {
            Err(seq!["unsupported trust store version"@])
        } else {
            match first_answer(t.centers, a.signature.center_id, a.signature.key_id) {
                None => Err(seq!["signing key is not trusted"@]),
                Some(k) => judged(a, k),
            }
        },
    }
}

/// Whether a store trusts an identity: the first key that answers to its names is its
/// public key.
pub open spec fn trusts(t: TrustStoreView, who: IdentityView) -> bool {
    t.version == 1 && (first_answer(t.centers, who.center_id, who.key_id) matches Some(k)
        && k.public_key == base64_of(public_of(who.secret), true))
}

/// Checks what is known of an attestation before any key is looked up.
pub fn check_envelope(attestation: &Attestation) -> (r: Result<(), Error>)
    ensures
        outcome(r) == envelope_check(attestation@),
{
    if attestation.version != 1 && attestation.version != 2 {
        return Err(Error::new("unsupported attestation version"));
    }
    if !same(attestation.signature.algorithm.as_str(), "Ed25519") {
        return Err(Error::new("unsupported signature algorithm"));
    }
    Ok(())
}

fn find_key<'a>(keys: &'a Vec<TrustedKey>, e: &SignatureEnvelope) -> (r: Option<&'a TrustedKey>)
    ensures
        match r {
            Some(k) => first_answer(
                keys@.map_values(|k: TrustedKey| k@),
                e@.center_id,
                e@.key_id,
            ) == Some(k@),
            None => first_answer(
                keys@.map_values(|k: TrustedKey| k@),
                e@.center_id,
                e@.key_id,
            ) is None,
        },
{
    let ghost all = keys@.map_values(|k: TrustedKey| k@);
    let mut i: usize = 0;
    assert(all.skip(0) =~= all);
    while i < keys.len()
        invariant
            i <= keys@.len(),
            all == keys@.map_values(|k: TrustedKey| k@),
            first_answer(all.skip(i as int), e@.center_id, e@.key_id) == first_answer(
                all,
                e@.center_id,
                e@.key_id,
            ),
        decreases keys.len() - i,
    {
        let k = &keys[i];
        assert(all.skip(i as int)[0] == k@);
        if same(k.center_id.as_str(), e.center_id.as_str()) && same(
            k.key_id.as_str(),
            e.key_id.as_str(),
        ) && !k.revoked {
            return Some(k);
        }
        assert(all.skip(i as int).skip(1) =~= all.skip(i + 1));
        i += 1;
    }
    None
}

/// Holds an attestation against a trust store. The digest of its payload comes back
/// where the signature is accepted.
pub fn verify(attestation: &Attestation, trust: &TrustStore) -> (r: Result<String, Error>)
    ensures
        outcome(r) == verdict(attestation@, trust@),
{
    match check_envelope(attestation) {
        Ok(_) => {},
        Err(e) => {
            return Err(e);
        },
    }
    if trust.version != 1 {
        return Err(Error::new("unsupported trust store version"));
    }
    let trusted = match find_key(&trust.centers, &attestation.signature) {
        Some(k) => k,
        None => {
            return Err(Error::new("signing key is not trusted"));
        },
    };
    let public = match decode_url(trusted.public_key.as_str()) {
        Ok(b) => b,
        Err(m) => {
            return Err(Error::of(m));
        },
    };
    if public.len() != 32 {
        return Err(Error::new("public key must be 32 bytes"));
    }
    match check_point(public.as_slice()) {
        Ok(_) => {},
        Err(m) => {
            return Err(Error::of(m));
        },
    }
    let signature = match decode_url(attestation.signature.value.as_str()) {
        Ok(b) => b,
        Err(m) => {
            return Err(Error::of(m));
        },
    };
    if signature.len() != 64 {
        return Err(Error::new("signature error"));
    }
    let message = match signature_bytes(
        attestation.version,
        attestation.signature.center_id.as_str(),
        attestation.signature.key_id.as_str(),
        &attestation.payload,
    ) {
        Ok(b) => b,
        Err(e) => {
            return Err(e);
        },
    };
    match check_signature(public.as_slice(), message.as_slice(), signature.as_slice()) {
        Ok(_) => {},
        Err(m) => {
            return Err(Error::of(m));
        },
    }
    sha256_value(&attestation.payload)
}

/// A new key file loads: what it signs goes under the names that it was made for.
pub proof fn law_new_keys_load(k: KeyFileView, center_id: Seq<char>, key_id: Seq<char>)
    requires
        is_key_file(k, center_id, key_id),
        center_id.len() > 0,
        key_id.len() > 0,
    ensures
        identity_of(k) matches Ok(who) && who.center_id == center_id && who.key_id == key_id
            && base64_of(public_of(who.secret), true) == k.public_key,
{
    let secret = choose|secret: Seq<u8>|
        secret.len() == 32 && is_point(#[trigger] public_of(secret)) && k == key_file_of(
            secret,
            center_id,
            key_id,
        );
    law_base64_reads_back(secret);
}

/// Reports of the first version stay verifiable: a signature of the bare payload that the
/// key accepts is accepted by every store that lists the key first under the names given.
pub proof fn law_first_version_stays_verifiable(
    center_id: Seq<char>,
    key_id: Seq<char>,
    payload: JsonView,
    public: Seq<u8>,
    signature: Seq<u8>,
    t: TrustStoreView,
)
    requires
        public.len() == 32,
        is_point(public),
        signature.len() == 64,
        acceptance(public, encode_utf8(canonical(payload)), signature) is Ok,
        t.version == 1,
        first_answer(t.centers, center_id, key_id) matches Some(k) && k.public_key == base64_of(
            public,
            true,
        ),
    ensures
        verdict(
            AttestationView {
                version: 1,
                payload,
                signature: EnvelopeView {
                    algorithm: "Ed25519"@,
                    center_id,
                    key_id,
                    value: base64_of(signature, true),
                },
            },
            t,
        ) == Ok::<Seq<char>, Seq<Seq<char>>>(document_digest(payload)),
{
    law_base64_reads_back(public);
    law_base64_reads_back(signature);
}

/// No signature is accepted under names for which the store holds no key, or only
/// revoked ones.
pub proof fn law_unknown_and_revoked_keys_are_refused(a: AttestationView, t: TrustStoreView)
    requires
        forall|i: int|
            0 <= i < t.centers.len() ==> {
                let k = #[trigger] t.centers[i];
                k.revoked || k.center_id != a.signature.center_id || k.key_id
                    != a.signature.key_id
            },
    ensures
        verdict(a, t) is Err,
        envelope_check(a) is Ok && t.version == 1 ==> verdict(a, t) == Err::<
            Seq<char>,
            Seq<Seq<char>>,
        >(seq!["signing key is not trusted"@]),
{
    lemma_no_answer(t.centers, a.signature.center_id, a.signature.key_id);
}

proof fn lemma_no_answer(keys: Seq<TrustedKeyView>, center_id: Seq<char>, key_id: Seq<char>)
    requires
        forall|i: int|
            0 <= i < keys.len() ==> !answers(#[trigger] keys[i], center_id, key_id),
    ensures
        first_answer(keys, center_id, key_id) is None,
    decreases keys.len(),
{
    if keys.len() > 0 {
        let rest = keys.skip(1);
        assert(forall|i: int| 0 <= i < rest.len() ==> #[trigger] rest[i] == keys[i + 1]);
        lemma_no_answer(rest, center_id, key_id);
    }
}

/// The members of what is signed, in the order of their keys.
spec fn envelope_entries(center: Seq<char>, key: Seq<char>, payload: Seq<char>) -> Seq<
    (Seq<char>, Seq<char>),
> {
    seq![
        ("algorithm"@, quoted("Ed25519"@)),
        ("center_id"@, quoted(center)),
        ("domain"@, quoted("nix-compute-attestation"@)),
        ("key_id"@, quoted(key)),
        ("payload"@, payload),
        ("version"@, decimal(2)),
    ]
}

/// The members of what is signed come in that order.
#[verifier::rlimit(50)]
#[verifier::spinoff_prover]
proof fn lemma_envelope_order(center: Seq<char>, key: Seq<char>, payload: JsonView)
    ensures
        put_all(Seq::empty(), canonical_entries(envelope_members(center, key, payload)))
            == envelope_entries(center, key, canonical(payload)),
{
    let x = canonical_entries(envelope_members(center, key, payload));
    let y = envelope_entries(center, key, canonical(payload));
    reveal_strlit("algorithm");
    reveal_strlit("center_id");
    reveal_strlit("domain");
    reveal_strlit("key_id");
    reveal_strlit("payload");
    reveal_strlit("version");
    assert(x[0] == y[2]);
    assert(x[1] == y[5]);
    assert(x[2] == y[0]);
    assert(x[3] == y[1]);
    assert(x[4] == y[3]);
    assert(x[5] == y[4]);
    assert forall|i: int, j: int| 0 <= i < j < y.len() implies before(
        #[trigger] y[i].0,
        #[trigger] y[j].0,
    ) && y[i].0 != y[j].0 by {
        assert(y[i].0[0] < y[j].0[0]);
    }
    assert forall|i: int, j: int| 0 <= i < j < x.len() implies #[trigger] x[i].0
        != #[trigger] x[j].0 by {
        assert(x[i].0[0] != x[j].0[0]);
    }
    assert forall|i: int| 0 <= i < x.len() implies y.contains(#[trigger] x[i]) by {
        let j = if i == 0 {
            2
        } else if i == 1 {
            5
        } else if i == 2 {
            0
        } else if i == 3 {
            1int
        } else if i == 4 {
            3
        } else {
            4
        };
        assert(x[i] == y[j]);
    }
    lemma_same_entries(x, y);
    lemma_put_all_ordered(y);
}

/// Six texts with commas between them.
#[verifier::rlimit(50)]
#[verifier::spinoff_prover]
proof fn lemma_six_joined(m: Seq<Seq<char>>, comma: Seq<char>)
    requires
        m.len() == 6,
    ensures
        joined(m, comma) == m[0] + (comma + (m[1] + (comma + (m[2] + (comma + (m[3] + (comma + (m[4]
            + (comma + m[5]))))))))),
{
    let m1 = m.skip(1);
    let m2 = m1.skip(1);
    let m3 = m2.skip(1);
    let m4 = m3.skip(1);
    let m5 = m4.skip(1);
    lemma_first_joined(m, comma);
    lemma_first_joined(m1, comma);
    lemma_first_joined(m2, comma);
    lemma_first_joined(m3, comma);
    lemma_first_joined(m4, comma);
    assert(m1[0] == m[1]);
    assert(m2[0] == m[2]);
    assert(m3[0] == m[3]);
    assert(m4[0] == m[4]);
    assert(m5[0] == m[5]);
}

/// What is signed, as one text: the names and the payload between texts that never change.
#[verifier::rlimit(50)]
#[verifier::spinoff_prover]
proof fn lemma_envelope_text(center: Seq<char>, key: Seq<char>, payload: JsonView)
    ensures
        signed_bytes(2, center, key, payload) == encode_utf8(
            envelope_start() + (quoted(center) + (envelope_middle() + (quoted(key) + (
            envelope_before_payload() + (canonical(payload) + envelope_end()))))),
        ),
{
    let m = members(envelope_entries(center, key, canonical(payload)));
    let comma = seq![','];
    lemma_envelope_order(center, key, payload);
    lemma_six_joined(m, comma);
    assert(m[0] == member("algorithm"@, quoted("Ed25519"@)));
    assert(m[1] == quoted("center_id"@) + seq![':'] + quoted(center));
    assert(m[2] == member("domain"@, quoted("nix-compute-attestation"@)));
    assert(m[3] == quoted("key_id"@) + seq![':'] + quoted(key));
    assert(m[4] == quoted("payload"@) + seq![':'] + canonical(payload));
    assert(m[5] == member("version"@, decimal(2)));
    lemma_regrouped(
        seq!['{'],
        m[0],
        comma,
        quoted("center_id"@) + seq![':'],
        quoted(center),
        m[2],
        quoted("key_id"@) + seq![':'],
        quoted(key),
        quoted("payload"@) + seq![':'],
        canonical(payload),
        m[5],
        seq!['}'],
    );
    assert(envelope_start() =~= seq!['{'] + m[0] + comma + (quoted("center_id"@) + seq![':']));
    assert(envelope_middle() =~= comma + m[2] + comma + (quoted("key_id"@) + seq![':']));
    assert(envelope_before_payload() =~= comma + (quoted("payload"@) + seq![':']));
}

/// Texts one behind the other, grouped in another way.
#[verifier::rlimit(50)]
#[verifier::spinoff_prover]
proof fn lemma_regrouped(
    open: Seq<char>,
    a: Seq<char>,
    comma: Seq<char>,
    c0: Seq<char>,
    c: Seq<char>,
    d: Seq<char>,
    k0: Seq<char>,
    k: Seq<char>,
    p0: Seq<char>,
    p: Seq<char>,
    v: Seq<char>,
    close: Seq<char>,
)
    ensures
        open + (a + (comma + ((c0 + c) + (comma + (d + (comma + ((k0 + k) + (comma + ((p0 + p) + (
        comma + v)))))))))) + close == (open + a + comma + c0) + (c + ((comma + d + comma + k0) + (k + (
        (comma + p0) + (p + (comma + v + close)))))),
{
    let end = comma + v + close;
    let f5 = (p0 + p) + (comma + v);
    assert(f5 + close =~= p0 + (p + end));
    let g5 = p + end;
    let f4 = (k0 + k) + (comma + f5);
    assert(f4 + close =~= k0 + (k + ((comma + p0) + g5))) by {
        assert(f4 + close =~= (k0 + k) + (comma + (f5 + close)));
        assert((k0 + k) + (comma + (p0 + g5)) =~= k0 + (k + ((comma + p0) + g5)));
    }
    let g4 = k + ((comma + p0) + g5);
    let f3 = d + (comma + f4);
    let f2 = (c0 + c) + (comma + f3);
    assert(f2 + close =~= c0 + (c + ((comma + d + comma + k0) + g4))) by {
        assert(f2 + close =~= (c0 + c) + (comma + (d + (comma + (f4 + close)))));
        assert(comma + (d + (comma + (k0 + g4))) =~= (comma + d + comma + k0) + g4);
        assert((c0 + c) + ((comma + d + comma + k0) + g4) =~= c0 + (c + ((comma + d + comma + k0)
            + g4)));
    }
    let g2 = c + ((comma + d + comma + k0) + g4);
    let f1 = a + (comma + f2);
    assert(open + f1 + close =~= open + (a + (comma + (f2 + close))));
    assert(open + (a + (comma + (c0 + g2))) =~= (open + a + comma + c0) + g2);
}

spec fn envelope_start() -> Seq<char> {
    seq!['{'] + member("algorithm"@, quoted("Ed25519"@)) + seq![','] + quoted("center_id"@) + seq![
        ':',
    ]
}

spec fn envelope_middle() -> Seq<char> {
    seq![','] + member("domain"@, quoted("nix-compute-attestation"@)) + seq![','] + quoted(
        "key_id"@,
    ) + seq![':']
}

spec fn envelope_before_payload() -> Seq<char> {
    seq![','] + quoted("payload"@) + seq![':']
}

spec fn envelope_end() -> Seq<char> {
    seq![','] + member("version"@, decimal(2)) + seq!['}']
}

/// A signature binds the names of its key: bytes that are signed under one center and key are
/// never those that are signed under another, nor for another payload.
#[verifier::rlimit(50)]
#[verifier::spinoff_prover]
pub proof fn law_signatures_bind_their_key(
    center: Seq<char>,
    key: Seq<char>,
    payload: JsonView,
    other_center: Seq<char>,
    other_key: Seq<char>,
    other_payload: JsonView,
)
    requires
        signed_bytes(2, center, key, payload) == signed_bytes(
            2,
            other_center,
            other_key,
            other_payload,
        ),
    ensures
        center == other_center,
        key == other_key,
        canonical(payload) == canonical(other_payload),
{
    let start = envelope_start();
    let middle = envelope_middle();
    let end = envelope_before_payload();
    let last = envelope_end();
    lemma_envelope_text(center, key, payload);
    lemma_envelope_text(other_center, other_key, other_payload);
    let a4 = canonical(payload) + last;
    let b4 = canonical(other_payload) + last;
    let a2 = middle + (quoted(key) + (end + a4));
    let b2 = middle + (quoted(other_key) + (end + b4));
    let a1 = start + (quoted(center) + a2);
    let b1 = start + (quoted(other_center) + b2);
    encode_utf8_decode_utf8(a1);
    encode_utf8_decode_utf8(b1);
    assert(a1.skip(start.len() as int) =~= quoted(center) + a2);
    assert(b1.skip(start.len() as int) =~= quoted(other_center) + b2);
    lemma_quoted_apart(center, other_center, a2, b2);
    assert(a2.skip(middle.len() as int) =~= quoted(key) + (end + a4));
    assert(b2.skip(middle.len() as int) =~= quoted(other_key) + (end + b4));
    lemma_quoted_apart(key, other_key, end + a4, end + b4);
    assert((end + a4).skip(end.len() as int) =~= a4);
    assert((end + b4).skip(end.len() as int) =~= b4);
    assert(a4.take(a4.len() - last.len()) =~= canonical(payload));
    assert(b4.take(b4.len() - last.len()) =~= canonical(other_payload));
}

/// What is signed is the one text of a document that holds the payload, and with it what it is
/// signed for, the algorithm, and who signs with which key. In the first version it was the
/// payload alone.
#[verifier::rlimit(50)]
#[verifier::spinoff_prover]
pub proof fn law_what_is_signed(
    version: u32,
    center: Seq<char>,
    key: Seq<char>,
    payload: JsonView,
)
    ensures
        version == 1 ==> signed_bytes(version, center, key, payload) == encode_utf8(
            canonical(payload),
        ),
        version != 1 ==> signed_bytes(version, center, key, payload) == encode_utf8(
            canonical(JsonView::Object(envelope_members(center, key, payload))),
        ),
        ({
            let v = JsonView::Object(envelope_members(center, key, payload));
            &&& member_of(v, "domain"@) == JsonView::Text("nix-compute-attestation"@)
            &&& member_of(v, "version"@) == JsonView::Number("2"@)
            &&& member_of(v, "algorithm"@) == JsonView::Text("Ed25519"@)
            &&& member_of(v, "center_id"@) == JsonView::Text(center)
            &&& member_of(v, "key_id"@) == JsonView::Text(key)
            &&& member_of(v, "payload"@) == payload
            &&& envelope_members(center, key, payload).len() == 6
        }),
{
    broadcast use lemma_lookup_push;

    reveal_strlit("domain");
    reveal_strlit("version");
    reveal_strlit("algorithm");
    reveal_strlit("center_id");
    reveal_strlit("key_id");
    reveal_strlit("payload");
    assert("domain"@.len() == 6 && "domain"@[0] == 'd');
    assert("version"@.len() == 7 && "version"@[0] == 'v');
    assert("algorithm"@.len() == 9 && "algorithm"@[0] == 'a');
    assert("center_id"@.len() == 9 && "center_id"@[0] == 'c');
    assert("key_id"@.len() == 6 && "key_id"@[0] == 'k');
    assert("payload"@.len() == 7 && "payload"@[0] == 'p');
    reveal_strlit("2");
    assert(decimal(2) =~= "2"@);
    let m = envelope_members(center, key, payload);
    let e = Seq::<(Seq<char>, JsonView)>::empty();
    let all = e.push(m[0]).push(m[1]).push(m[2]).push(m[3]).push(m[4]).push(m[5]);
    assert(m =~= all);
}

/// Of several keys the first that is of the center, has the name and was not revoked is the one
/// that counts.
pub proof fn law_the_first_key_in_force_counts(
    keys: Seq<TrustedKeyView>,
    center_id: Seq<char>,
    key_id: Seq<char>,
    i: int,
)
    requires
        0 <= i < keys.len(),
        keys[i].center_id == center_id,
        keys[i].key_id == key_id,
        !keys[i].revoked,
        forall|j: int|
            0 <= j < i ==> (#[trigger] keys[j]).revoked || keys[j].center_id != center_id
                || keys[j].key_id != key_id,
    ensures
        first_answer(keys, center_id, key_id) == Some(keys[i]),
    decreases keys.len(),
{
    if i > 0 {
        assert(!answers(keys[0], center_id, key_id));
        let rest = keys.skip(1);
        assert forall|j: int| 0 <= j < i - 1 implies (#[trigger] rest[j]).revoked
            || rest[j].center_id != center_id || rest[j].key_id != key_id by {
            assert(rest[j] == keys[j + 1]);
        }
        law_the_first_key_in_force_counts(rest, center_id, key_id, i - 1);
    }
}

/// A report is accepted exactly where it is of a version and an algorithm that are known, the
/// trust is of a version that is known, the key in force of its center has the right form, and the
/// signature over what it says is accepted under that key. It is then known by the digest of its
/// payload.
pub proof fn law_accepted_reports_are_signed(a: AttestationView, t: TrustStoreView)
    ensures
        verdict(a, t) is Ok <==> {
            &&& a.version == 1 || a.version == 2
            &&& a.signature.algorithm == "Ed25519"@
            &&& t.version == 1
            &&& first_answer(t.centers, a.signature.center_id, a.signature.key_id) matches Some(k)
                && (base64_bytes(k.public_key) matches Some(public) && public.len() == 32
                && is_point(public) && (base64_bytes(a.signature.value) matches Some(signature)
                && signature.len() == 64 && acceptance(
                public,
                signed_bytes(a.version, a.signature.center_id, a.signature.key_id, a.payload),
                signature,
            ) is Ok))
        },
        verdict(a, t) matches Ok(id) ==> id == document_digest(a.payload),
        envelope_check(a) is Ok <==> (a.version == 1 || a.version == 2) && a.signature.algorithm
            == "Ed25519"@,
{
}

/// A report is signed in the newest version by the one who signs it, over its own payload.
pub proof fn law_reports_are_signed_by_their_signer(who: IdentityView, payload: JsonView)
    ensures
        signed(who, payload).version == 2,
        signed(who, payload).payload == payload,
        signed(who, payload).signature.algorithm == "Ed25519"@,
        signed(who, payload).signature.center_id == who.center_id,
        signed(who, payload).signature.key_id == who.key_id,
        base64_bytes(signed(who, payload).signature.value) == Some(
            signature_of(who.secret, signed_bytes(2, who.center_id, who.key_id, payload)),
        ),
{
    law_base64_reads_back(
        signature_of(who.secret, signed_bytes(2, who.center_id, who.key_id, payload)),
    );
}

/// A key file is loaded exactly where it is of the known algorithm, its secret has the right
/// length and belongs to its public key, and it names a center and a key.
pub proof fn law_sound_keys_load(k: KeyFileView, secret: Seq<u8>)
    requires
        k.private_key == base64_of(secret, true),
    ensures
        identity_of(k) is Ok <==> k.algorithm == "Ed25519"@ && secret.len() == 32 && k.public_key
            == base64_of(public_of(secret), true) && k.center_id.len() > 0 && k.key_id.len() > 0,
        identity_of(k) matches Ok(who) ==> who.secret == secret && who.center_id == k.center_id
            && who.key_id == k.key_id,
        key_file_of(secret, k.center_id, k.key_id) == (KeyFileView {
            algorithm: "Ed25519"@,
            center_id: k.center_id,
            key_id: k.key_id,
            private_key: base64_of(secret, true),
            public_key: base64_of(public_of(secret), true),
        }),
{
    law_base64_reads_back(secret);
}

/// What was signed with a key is accepted where that key is in force, and only reports that
/// verify are accepted.
pub proof fn law_verification_follows_the_trust(
    attestation: &Attestation,
    trust: &TrustStore,
    r: Result<String, Error>,
)
    requires
        call_ensures(verify, (attestation, trust), r),
    ensures
        r matches Ok(id) ==> id@ == document_digest(attestation.payload@) && (attestation.version
            == 1 || attestation.version == 2) && attestation.signature.algorithm@ == "Ed25519"@
            && trust.version == 1 && exists|i: int|
            0 <= i < trust.centers@.len() && !(#[trigger] trust.centers@[i]).revoked
                && trust.centers@[i].center_id@ == attestation.signature.center_id@
                && trust.centers@[i].key_id@ == attestation.signature.key_id@,
        r is Ok <==> verdict(attestation@, trust@) is Ok,
{
    law_accepted_reports_are_signed(attestation@, trust@);
    if r is Ok {
        let e = attestation@.signature;
        lemma_answer_is_listed(trust@.centers, e.center_id, e.key_id);
        let i = choose|i: int|
            0 <= i < trust@.centers.len() && answers(
                #[trigger] trust@.centers[i],
                e.center_id,
                e.key_id,
            );
        assert(trust@.centers[i] == trust.centers@[i]@);
        assert(!trust.centers@[i].revoked);
    }
}

proof fn lemma_answer_is_listed(keys: Seq<TrustedKeyView>, center_id: Seq<char>, key_id: Seq<char>)
    requires
        first_answer(keys, center_id, key_id) is Some,
    ensures
        exists|i: int|
            0 <= i < keys.len() && answers(#[trigger] keys[i], center_id, key_id),
    decreases keys.len(),
{
    if answers(keys[0], center_id, key_id) {
    } else {
        let rest = keys.skip(1);
        lemma_answer_is_listed(rest, center_id, key_id);
        let i = choose|i: int|
            0 <= i < rest.len() && answers(#[trigger] rest[i], center_id, key_id);
        assert(keys[i + 1] == rest[i]);
    }
}

/// Who loads a key signs with it, and a report is looked at before any key is.
pub proof fn law_loaded_keys_sign(
    key: KeyFile,
    loaded: Result<SigningIdentity, Error>,
    who: &SigningIdentity,
    payload: Json,
    r: Result<Attestation, Error>,
    attestation: &Attestation,
    sound: Result<(), Error>,
    secret: &Vec<u8>,
    center_id: &str,
    key_id: &str,
    file: KeyFile,
)
    requires
        call_ensures(SigningIdentity::load, (key,), loaded),
        call_ensures(SigningIdentity::sign, (who, payload), r),
        call_ensures(check_envelope, (attestation,), sound),
        call_ensures(key_file, (secret, center_id, key_id), file),
    ensures
        loaded is Ok ==> key.algorithm@ == "Ed25519"@ && key.center_id@.len() > 0
            && key.key_id@.len() > 0,
        loaded matches Ok(id) ==> id@.center_id == key.center_id@ && id@.key_id == key.key_id@
            && base64_of(public_of(id@.secret), true) == key.public_key@ && id@.secret.len() == 32,
        r matches Ok(a) && a.version == 2 && a.payload@ == payload@ && a.signature.center_id@
            == who@.center_id && a.signature.key_id@ == who@.key_id && a.signature.algorithm@
            == "Ed25519"@,
        r matches Ok(a) && base64_bytes(a.signature.value@) == Some(
            signature_of(who@.secret, signed_bytes(2, who@.center_id, who@.key_id, payload@)),
        ),
        sound is Ok <==> (attestation.version == 1 || attestation.version == 2)
            && attestation.signature.algorithm@ == "Ed25519"@,
        file.algorithm@ == "Ed25519"@ && file.center_id@ == center_id@ && file.key_id@ == key_id@
            && file.private_key@ == base64_of(secret@, true) && file.public_key@ == base64_of(
            public_of(secret@),
            true,
        ),
{
    law_reports_are_signed_by_their_signer(who@, payload@);
}

} // verus!
