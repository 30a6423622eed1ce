//! Passphrase-keyed encryption of a secret tree: the tree's bytes are
//! compressed, then sealed with AES-256-GCM under a fresh random nonce, which
//! leads the output.
use vstd::prelude::*;
use vstd::utf8::encode_utf8;

use crate::codec::parse_tree;
use crate::nested_map::NestedMap;

verus! {

#[verifier::external_type_specification]
#[verifier::external_body]
pub struct ExAeadError(aes_gcm::Error);

#[verifier::external_type_specification]
#[verifier::external_body]
pub struct ExDecompressError(miniz_oxide::inflate::DecompressError);

/// The SHA-256 digest of some bytes.
pub uninterp spec fn sha256_of(data: Seq<u8>) -> Seq<u8>;

/// The AES-256-GCM ciphertext (with its tag) of `plain` under `key` and
/// `nonce`, without associated data, as aes-gcm's algorithm computes it; its
/// encryption accepts plaintexts up to `PLAINTEXT_MAX` bytes and its
/// decryption ciphertexts of up to `OPENED_MAX` bytes before the tag.
pub uninterp spec fn gcm_seal(key: Seq<u8>, nonce: Seq<u8>, plain: Seq<u8>) -> Seq<u8>;

/// The raw DEFLATE stream that compression at level 8 makes of some bytes.
pub uninterp spec fn deflate_of(data: Seq<u8>) -> Seq<u8>;

/// The bytes that a raw DEFLATE stream inflates to, or `None` when it is not
/// a complete, well-formed stream.
pub uninterp spec fn inflate_of(data: Seq<u8>) -> Option<Seq<u8>>;

/// The length of the authentication tag that follows a sealed plaintext.
pub const TAG_LEN: usize = 16;

/// The largest plaintext that AES-GCM seals.
pub const PLAINTEXT_MAX: u64 = 0x10_0000_0000;

/// The largest plaintext that AES-GCM decryption gives back.
pub const OPENED_MAX: u64 = 0x10_0000_0010;

/// The length of the nonce that leads an encrypted tree.
pub const NONCE_LEN: usize = 12;

/// Relies on sha2's `Sha256::digest`: the 32-byte SHA-256 digest of the input.
#[verifier::external_body]
fn sha256(data: &[u8]) -> (r: Vec<u8>)
    ensures
        r@ == sha256_of(data@),
        r@.len() == 32,
{
    <sha2::Sha256 as sha2::Digest>::digest(data).to_vec()
}

/// Relies on aes-gcm's `Aes256Gcm::encrypt` (aead's `Aead`) with no associated
/// data: it fails only on a plaintext longer than `PLAINTEXT_MAX`.
#[verifier::external_body]
fn gcm_encrypt(key: &[u8], nonce: &[u8], plain: &[u8]) -> (r: Result<Vec<u8>, aes_gcm::Error>)
    requires
        key@.len() == 32,
        nonce@.len() == NONCE_LEN,
    ensures
        match r {
            Ok(c) => {
                &&& c@ == gcm_seal(key@, nonce@, plain@)
                &&& plain@.len() <= PLAINTEXT_MAX
                &&& c@.len() == plain@.len() + TAG_LEN
            },
            Err(_) => plain@.len() > PLAINTEXT_MAX,
        },
{
    let cipher = <aes_gcm::Aes256Gcm as aes_gcm::KeyInit>::new(
        aes_gcm::aead::generic_array::GenericArray::from_slice(key),
    );
    let nonce = aes_gcm::aead::generic_array::GenericArray::from_slice(nonce);
    <aes_gcm::Aes256Gcm as aes_gcm::aead::Aead>::encrypt(&cipher, nonce, plain)
}

/// Relies on aes-gcm's `Aes256Gcm::decrypt` (aead's `Aead`) with no associated
/// data: what `encrypt` sealed under the same key and nonce opens to its
/// plaintext; it succeeds only when the tag checks, that is when the data is
/// the sealing of what it returns; data shorter than the tag fails.
#[verifier::external_body]
fn gcm_decrypt(key: &[u8], nonce: &[u8], data: &[u8]) -> (r: Result<Vec<u8>, aes_gcm::Error>)
    requires
        key@.len() == 32,
        nonce@.len() == NONCE_LEN,
    ensures
        match r {
            Ok(v) => {
                &&& data@ == gcm_seal(key@, nonce@, v@)
                &&& v@.len() <= OPENED_MAX
                &&& forall|p: Seq<u8>|
                    p.len() <= OPENED_MAX && #[trigger] gcm_seal(key@, nonce@, p) == data@ ==> v@
                        == p
            },
            Err(_) => forall|p: Seq<u8>|
                p.len() <= OPENED_MAX ==> #[trigger] gcm_seal(key@, nonce@, p) != data@,
        },
        data@.len() < TAG_LEN ==> r is Err,
{
    let cipher = <aes_gcm::Aes256Gcm as aes_gcm::KeyInit>::new(
        aes_gcm::aead::generic_array::GenericArray::from_slice(key),
    );
    let nonce = aes_gcm::aead::generic_array::GenericArray::from_slice(nonce);
    <aes_gcm::Aes256Gcm as aes_gcm::aead::Aead>::decrypt(&cipher, nonce, data)
}

/// Relies on miniz_oxide's `deflate::compress_to_vec` at level 8: the
/// compressed stream depends on the input alone.
#[verifier::external_body]
fn deflate(data: &[u8]) -> (r: Vec<u8>)
    ensures
        r@ == deflate_of(data@),
{
    miniz_oxide::deflate::compress_to_vec(data, 8)
}

/// Relies on miniz_oxide's `inflate::decompress_to_vec`: its outcome depends
/// on the input alone, and a stream that `compress_to_vec` made inflates back
/// to that function's input.
#[verifier::external_body]
fn inflate(data: &[u8]) -> (r: Result<Vec<u8>, miniz_oxide::inflate::DecompressError>)
    ensures
        match r {
            Ok(v) => inflate_of(data@) == Some(v@) && forall|x: Seq<u8>|
                #[trigger] deflate_of(x) == data@ ==> v@ == x,
            Err(_) => inflate_of(data@) is None && forall|x: Seq<u8>| #[trigger] deflate_of(x)
                != data@,
        },
{
    miniz_oxide::inflate::decompress_to_vec(data)
}

/// Relies on rand's `random`: twelve bytes from the thread-local generator.
#[verifier::external_body]
fn random_nonce() -> (r: Vec<u8>)
    ensures
        r@.len() == NONCE_LEN,
{
    rand::random::<[u8; 12]>().to_vec()
}

/// Why encryption or decryption failed.
#[derive(Debug, Clone, Copy, PartialEq, Eq, Structural)]
pub enum CryptoError {
    /// The decrypted bytes do not hold a tree
    Serde,
    /// Sealing failed, or the data is not authentic under the key
    Crypto,
    /// The decrypted bytes are not a DEFLATE stream
    Inflation,
}

/// Whether `data` is a nonce followed by the sealing, under `key` and that
/// nonce, of the compressed `payload`.
pub open spec fn sealed(key: Seq<u8>, data: Seq<u8>, payload: Seq<u8>) -> bool {
    &&& data.len() >= NONCE_LEN
    &&& deflate_of(payload).len() <= PLAINTEXT_MAX
    &&& data.subrange(NONCE_LEN as int, data.len() as int) == gcm_seal(
        key,
        data.subrange(0, NONCE_LEN as int),
        deflate_of(payload),
    )
}

/// Whether `data` is a nonce followed by the sealing, under `key` and that
/// nonce, of `x`: data that the cipher accepts as authentic.
pub open spec fn opens_to(key: Seq<u8>, data: Seq<u8>, x: Seq<u8>) -> bool {
    &&& data.len() >= NONCE_LEN
    &&& x.len() <= OPENED_MAX
    &&& data.subrange(NONCE_LEN as int, data.len() as int) == gcm_seal(
        key,
        data.subrange(0, NONCE_LEN as int),
        x,
    )
}

/// What decrypting `data` under `key` gives: `Crypto` exactly when the data
/// is the authentic sealing of no `x`; otherwise, for the `x` it opens to,
/// `Inflation` when `x` does not inflate, `Serde` when what it inflates to is
/// not a tree, and the tree otherwise.
pub open spec fn decrypt_result(key: Seq<u8>, data: Seq<u8>, r: Result<
    Map<Seq<char>, crate::nested_map::Tree>,
    CryptoError,
>) -> bool {
    &&& (r == Err::<Map<Seq<char>, crate::nested_map::Tree>, CryptoError>(CryptoError::Crypto)
        <==> forall|x: Seq<u8>| #![trigger opens_to(key, data, x)] !opens_to(key, data, x))
    &&& forall|x: Seq<u8>| #[trigger]
        opens_to(key, data, x) ==> match inflate_of(x) {
            None => r == Err::<Map<Seq<char>, crate::nested_map::Tree>, CryptoError>(
                CryptoError::Inflation,
            ),
            Some(y) => match parse_tree(y) {
                None => r == Err::<Map<Seq<char>, crate::nested_map::Tree>, CryptoError>(
                    CryptoError::Serde,
                ),
                Some(t) => r == Ok::<Map<Seq<char>, crate::nested_map::Tree>, CryptoError>(t),
            },
        }
}

/// Decryption of `data` that was sealed from a payload gives the payload's
/// tree, or `Serde` when the payload holds none.
pub open spec fn decrypts_sealed(key: Seq<u8>, data: Seq<u8>, r: Result<
    Map<Seq<char>, crate::nested_map::Tree>,
    CryptoError,
>) -> bool {
    forall|payload: Seq<u8>| #[trigger]
        sealed(key, data, payload) ==> match parse_tree(payload) {
            Some(t) => r == Ok::<Map<Seq<char>, crate::nested_map::Tree>, CryptoError>(t),
            None => r == Err::<Map<Seq<char>, crate::nested_map::Tree>, CryptoError>(
                CryptoError::Serde,
            ),
        }
}

/// The key that a passphrase gives: the SHA-256 digest of its UTF-8 bytes.
pub open spec fn key_of(passphrase: Seq<char>) -> Seq<u8> {
    sha256_of(encode_utf8(passphrase))
}

/// A cipher keyed by a passphrase.
pub struct Crypter {
    key: Vec<u8>,
}

impl Crypter {
    /// The key bytes.
    pub closed spec fn view(&self) -> Seq<u8> {
        self.key@
    }

    #[verifier::type_invariant]
    spec fn inv(self) -> bool {
        self.key@.len() == 32
    }

    /// A cipher keyed by the digest of `passphrase`; the empty passphrase is
    /// accepted.
    pub fn new(passphrase: &str) -> (r: Crypter)
        ensures
            r@ == key_of(passphrase@),
            r@.len() == 32,
    {
        Crypter { key: sha256(passphrase.as_bytes()) }
    }

    /// The key bytes.
    pub fn key(&self) -> (r: &[u8])
        ensures
            r@ == self@,
            r@.len() == 32,
    {
        proof {
            use_type_invariant(self);
        }
        self.key.as_slice()
    }

    /// The bytes of `map`, compressed, sealed under a fresh nonce, and led by
    /// that nonce.
    pub fn encrypt(&self, map: &NestedMap) -> (r: Result<Vec<u8>, CryptoError>)
        ensures
            match r {
                Ok(data) => {
                    &&& sealed(self@, data@, map.encoding())
                    &&& data@.len() == NONCE_LEN + deflate_of(map.encoding()).len() + TAG_LEN
                    &&& map.encoding().len() <= usize::MAX
                },
                Err(e) => e == CryptoError::Crypto && deflate_of(map.encoding()).len()
                    > PLAINTEXT_MAX,
            },
    {
        proof {
            use_type_invariant(self);
        }
        let plain = map.encode();
        let plain_len = plain.len();
        assert(map.encoding().len() == plain_len);
        let packed = deflate(plain.as_slice());
        let nonce = random_nonce();
        let sealed_bytes = match gcm_encrypt(self.key.as_slice(), nonce.as_slice(), packed.as_slice()) {
            Ok(c) => c,
            Err(_) => return Err(CryptoError::Crypto),
        };
        let mut out: Vec<u8> = Vec::new();
        let mut i: usize = 0;
        while i < nonce.len()
            invariant
                i <= nonce@.len(),
                out@ == nonce@.subrange(0, i as int),
            decreases nonce@.len() - i,
        {
            out.push(nonce[i]);
            assert(out@ =~= nonce@.subrange(0, i + 1));
            i = i + 1;
        }
        let mut j: usize = 0;
        while j < sealed_bytes.len()
            invariant
                j <= sealed_bytes@.len(),
                out@ == nonce@ + sealed_bytes@.subrange(0, j as int),
            decreases sealed_bytes@.len() - j,
        {
            out.push(sealed_bytes[j]);
            assert(out@ =~= nonce@ + sealed_bytes@.subrange(0, j + 1));
            j = j + 1;
        }
        assert(map.encoding().len() <= usize::MAX);
        assert(out@.subrange(0, NONCE_LEN as int) =~= nonce@);
        assert(out@.subrange(NONCE_LEN as int, out@.len() as int) =~= sealed_bytes@);
        Ok(out)
    }

    /// The tree that `data` holds, when it is a nonce followed by a sealed,
    /// compressed tree under this cipher's key.
    pub fn decrypt(&self, data: &[u8]) -> (r: Result<NestedMap, CryptoError>)
        ensures
            data@.len() < NONCE_LEN + TAG_LEN ==> r == Err::<NestedMap, CryptoError>(
                CryptoError::Crypto,
            ),
            decrypts_sealed(
                self@,
                data@,
                match r {
                    Ok(m) => Ok(m@),
                    Err(e) => Err(e),
                },
            ),
            decrypt_result(
                self@,
                data@,
                match r {
                    Ok(m) => Ok(m@),
                    Err(e) => Err(e),
                },
            ),
    {
        proof {
            use_type_invariant(self);
        }
        if data.len() < NONCE_LEN {
            assert forall|x: Seq<u8>| #![trigger opens_to(self@, data@, x)]
                !opens_to(self@, data@, x) by {}
            return Err(CryptoError::Crypto);
        }
        let mut nonce: Vec<u8> = Vec::new();
        let mut i: usize = 0;
        while i < NONCE_LEN
            invariant
                i <= NONCE_LEN,
                data@.len() >= NONCE_LEN,
                nonce@ == data@.subrange(0, i as int),
            decreases NONCE_LEN - i,
        {
            nonce.push(data[i]);
            assert(nonce@ =~= data@.subrange(0, i + 1));
            i = i + 1;
        }
        let mut body: Vec<u8> = Vec::new();
        let mut j: usize = NONCE_LEN;
        while j < data.len()
            invariant
                NONCE_LEN <= j <= data@.len(),
                body@ == data@.subrange(NONCE_LEN as int, j as int),
            decreases data@.len() - j,
        {
            body.push(data[j]);
            assert(body@ =~= data@.subrange(NONCE_LEN as int, j + 1));
            j = j + 1;
        }
        let packed = match gcm_decrypt(self.key.as_slice(), nonce.as_slice(), body.as_slice()) {
            Ok(p) => p,
            Err(_) => {
                assert forall|x: Seq<u8>| #![trigger opens_to(self@, data@, x)]
                    !opens_to(self@, data@, x) by {
                    if opens_to(self@, data@, x) {
                        assert(gcm_seal(self@, nonce@, x) == body@);
                    }
                }
                return Err(CryptoError::Crypto);
            },
        };
        assert(opens_to(self@, data@, packed@));
        assert forall|x: Seq<u8>| #[trigger] opens_to(self@, data@, x) implies x == packed@ by {
            assert(gcm_seal(self@, nonce@, x) == body@);
        }
        let plain = match inflate(packed.as_slice()) {
            Ok(p) => p,
            Err(_) => return Err(CryptoError::Inflation),
        };
        match NestedMap::decode_all(plain.as_slice()) {
            Some(m) => Ok(m),
            None => Err(CryptoError::Serde),
        }
    }
}

} // verus!
