//! Sealed share payloads and sealed chunk file names. Both are sealed with
//! ChaCha20-Poly1305 under a key made of the first 32 bytes of a secret
//! (zero-padded), with a fresh random nonce stored in front of the
//! ciphertext; payloads are written in unpadded URL-safe Base64, file names
//! in lowercase hexadecimal.
use vstd::prelude::*;
use vstd::utf8::{decode_utf8, encode_utf8, is_continuation_byte, valid_utf8};
use crate::external::{aead_decrypt, aead_encrypt, aead_max_len, aead_open, aead_seal,
    base64_url_nopad, base64_url_nopad_decode, base64_url_nopad_decoded, base64_url_nopad_encode,
    hex_bytes, hex_decode, hex_encode, hex_text, is_base64_url_char, is_lower_hex_char, random_nonce, utf8_to_string};
use crate::text::{chars_of, digit_of, digits_value, has_suffix, parse_radix, parse_unsigned,
    slice_chars, string_from_chars};

verus! {

broadcast use vstd::utf8::group_utf8_lib;

// ----------------------------------------------------------------------
// Keys
// ----------------------------------------------------------------------

/// The cipher key made of a secret: its first 32 bytes, padded with zeros.
pub open spec fn secret_key(secret: Seq<u8>) -> Seq<u8> {
    if secret.len() >= 32 {
        secret.take(32)
    } else {
        secret + Seq::new((32 - secret.len()) as nat, |i: int| 0u8)
    }
}

pub fn key_from_secret(secret: &str) -> (r: Vec<u8>)
    ensures
        r@ == secret_key(encode_utf8(secret@)),
        r@.len() == 32,
{
    let bytes = secret.as_bytes();
    let mut key: Vec<u8> = Vec::new();
    let mut i: usize = 0;
    while i < 32
        invariant
            i <= 32,
            bytes@ == encode_utf8(secret@),
            key@.len() == i,
            forall|j: int| 0 <= j < i ==> #[trigger] key@[j] == (if j < bytes@.len() {
                bytes@[j]
            } else {
                0u8
            }),
        decreases 32 - i,
    {
        if i < bytes.len() {
            key.push(bytes[i]);
        } else {
            key.push(0u8);
        }
        i = i + 1;
    }
    proof {
        assert(key@ =~= secret_key(bytes@));
    }
    key
}

/// The nonce followed by what the cipher sealed.
pub open spec fn sealed_bytes(key: Seq<u8>, nonce: Seq<u8>, plain: Seq<u8>) -> Seq<u8> {
    nonce + aead_seal(key, nonce, plain)
}

/// Seals `plain` under `key` with a fresh nonce: the nonce, then the ciphertext.
fn seal_with_fresh_nonce(key: &Vec<u8>, plain: &[u8]) -> (r: Vec<u8>)
    requires
        key@.len() == 32,
        plain@.len() < aead_max_len(),
    ensures
        exists|nonce: Seq<u8>| nonce.len() == 12 && r@ == #[trigger] sealed_bytes(key@, nonce, plain@),
        r@.len() == plain@.len() + 28,
{
    let nonce = random_nonce();
    let ct = aead_encrypt(key.as_slice(), nonce.as_slice(), plain);
    let mut out: Vec<u8> = Vec::new();
    let mut i: usize = 0;
    while i < nonce.len()
        invariant
            i <= nonce@.len(),
            out@ == nonce@.take(i as int),
        decreases nonce.len() - i,
    {
        out.push(nonce[i]);
        i = i + 1;
        proof {
            assert(out@ =~= nonce@.take(i as int));
        }
    }
    let mut j: usize = 0;
    while j < ct.len()
        invariant
            i == nonce@.len(),
            j <= ct@.len(),
            out@ == nonce@ + ct@.take(j as int),
        decreases ct.len() - j,
    {
        out.push(ct[j]);
        j = j + 1;
        proof {
            assert(out@ =~= nonce@ + ct@.take(j as int));
        }
    }
    proof {
        assert(ct@.take(j as int) =~= ct@);
        assert(out@ == sealed_bytes(key@, nonce@, plain@));
    }
    out
}

/// What the cipher opens of a nonce-prefixed ciphertext; `None` when it is
/// too short to hold the nonce or does not authenticate.
pub open spec fn opened_bytes(key: Seq<u8>, data: Seq<u8>) -> Option<Seq<u8>> {
    if data.len() < 12 {
        None
    } else {
        aead_open(key, data.take(12), data.skip(12))
    }
}

fn copy_range(v: &Vec<u8>, from: usize, to: usize) -> (r: Vec<u8>)
    requires
        from <= to <= v@.len(),
    ensures
        r@ == v@.subrange(from as int, to as int),
{
    let mut out: Vec<u8> = Vec::new();
    let mut k: usize = from;
    while k < to
        invariant
            from <= k <= to,
            to <= v@.len(),
            out@ == v@.subrange(from as int, k as int),
        decreases to - k,
    {
        out.push(v[k]);
        k = k + 1;
        proof {
            assert(out@ =~= v@.subrange(from as int, k as int));
        }
    }
    out
}

/// Opens a nonce-prefixed ciphertext. What was sealed under the key with any
/// nonce opens to the plaintext.
fn open_sealed(key: &Vec<u8>, data: &Vec<u8>) -> (r: Option<Vec<u8>>)
    requires
        key@.len() == 32,
    ensures
        match r {
            Some(p) => opened_bytes(key@, data@) == Some(p@),
            None => opened_bytes(key@, data@) is None,
        },
        forall|nonce: Seq<u8>, plain: Seq<u8>|
            nonce.len() == 12 && plain.len() < aead_max_len() && data@ == #[trigger] sealed_bytes(key@, nonce, plain)
                ==> (r matches Some(p) && p@ == plain),
{
    if data.len() < 12 {
        proof {
            assert forall|nonce: Seq<u8>, plain: Seq<u8>|
                nonce.len() == 12 && data@ == #[trigger] sealed_bytes(key@, nonce, plain) implies false by {
            }
        }
        return None;
    }
    let nonce = copy_range(data, 0, 12);
    let ct = copy_range(data, 12, data.len());
    proof {
        assert(nonce@ =~= data@.take(12));
        assert(ct@ =~= data@.skip(12));
    }
    let r = aead_decrypt(key.as_slice(), nonce.as_slice(), ct.as_slice());
    proof {
        assert forall|n: Seq<u8>, plain: Seq<u8>|
            n.len() == 12 && plain.len() < aead_max_len() && data@ == #[trigger] sealed_bytes(key@, n, plain)
                implies (r matches Some(p) && p@ == plain) by {
            assert(data@.take(12) =~= n);
            assert(data@.skip(12) =~= aead_seal(key@, n, plain));
        }
    }
    r
}

// ----------------------------------------------------------------------
// Share payloads
// ----------------------------------------------------------------------

/// The text a payload is sealed into, under a secret and a nonce.
/// Text drawn from the URL-safe Base64 alphabet.
pub open spec fn url_safe(s: Seq<char>) -> bool {
    forall|i: int| 0 <= i < s.len() ==> crate::external::is_base64_url_char(#[trigger] s[i])
}

pub open spec fn sealed_payload(secret: Seq<char>, nonce: Seq<u8>, text: Seq<char>) -> Seq<char> {
    base64_url_nopad(sealed_bytes(secret_key(encode_utf8(secret)), nonce, encode_utf8(text)))
}

/// What a payload opens to under a secret, or the reason it does not.
pub open spec fn opened_payload(secret: Seq<char>, encoded: Seq<char>) -> Result<Seq<char>, Seq<char>> {
    match base64_url_nopad_decoded(encoded) {
        None => Err("Invalid Base64"@),
        Some(d) => if d.len() < 12 {
            Err("Payload too short"@)
        } else {
            match opened_bytes(secret_key(encode_utf8(secret)), d) {
                None => Err("Decryption or Authentication failed!"@),
                Some(p) => if valid_utf8(p) {
                    Ok(decode_utf8(p))
                } else {
                    Err("Invalid UTF-8"@)
                },
            }
        },
    }
}

/// Seals a payload under `secret` with a fresh random nonce.
pub fn encrypt_payload(secret: &str, json_str: &str) -> (r: String)
    requires
        encode_utf8(json_str@).len() < aead_max_len(),
    ensures
        exists|nonce: Seq<u8>| nonce.len() == 12 && r@ == #[trigger] sealed_payload(secret@, nonce, json_str@),
        url_safe(r@),
{
    let key = key_from_secret(secret);
    let sealed = seal_with_fresh_nonce(&key, json_str.as_bytes());
    let r = base64_url_nopad_encode(sealed.as_slice());
    proof {
        let nonce = choose|nonce: Seq<u8>| nonce.len() == 12 && sealed@ == #[trigger] sealed_bytes(key@, nonce, encode_utf8(json_str@));
        assert(r@ == sealed_payload(secret@, nonce, json_str@));
    }
    r
}

/// Opens a payload sealed under `secret`. A payload that `encrypt_payload`
/// sealed under the same secret opens to its text.
pub fn decrypt_payload(secret: &str, encoded: &str) -> (r: Result<String, String>)
    ensures
        match r {
            Ok(s) => opened_payload(secret@, encoded@) == Ok::<Seq<char>, Seq<char>>(s@),
            Err(e) => opened_payload(secret@, encoded@) == Err::<Seq<char>, Seq<char>>(e@),
        },
        forall|nonce: Seq<u8>, text: Seq<char>|
            nonce.len() == 12 && encode_utf8(text).len() < aead_max_len() && encoded@ == #[trigger] sealed_payload(secret@, nonce, text) ==> (r matches Ok(s) && s@ == text),
        encoded@.len() == 0 ==> (r matches Err(e) && e@ == "Payload too short"@),
        (exists|i: int| 0 <= i < encoded@.len() && !is_base64_url_char(#[trigger] encoded@[i]) && encoded@[i] != '=')
            ==> (r matches Err(e) && e@ == "Invalid Base64"@),
{
    let key = key_from_secret(secret);
    let decoded = match base64_url_nopad_decode(encoded) {
        None => {
            proof {
                assert forall|nonce: Seq<u8>, text: Seq<char>|
                    nonce.len() == 12 && encode_utf8(text).len() < aead_max_len() && encoded@ == #[trigger] sealed_payload(secret@, nonce, text) implies false by {
                }
            }
            return Err("Invalid Base64".to_string());
        },
        Some(d) => d,
    };
    if decoded.len() < 12 {
        proof {
            assert forall|nonce: Seq<u8>, text: Seq<char>|
                nonce.len() == 12 && encode_utf8(text).len() < aead_max_len() && encoded@ == #[trigger] sealed_payload(secret@, nonce, text) implies false by {
                assert(decoded@ == sealed_bytes(key@, nonce, encode_utf8(text)));
            }
        }
        return Err("Payload too short".to_string());
    }
    let plain = match open_sealed(&key, &decoded) {
        None => {
            proof {
                assert forall|nonce: Seq<u8>, text: Seq<char>|
                    nonce.len() == 12 && encode_utf8(text).len() < aead_max_len() && encoded@ == #[trigger] sealed_payload(secret@, nonce, text) implies false by {
                    assert(decoded@ == sealed_bytes(key@, nonce, encode_utf8(text)));
                }
            }
            return Err("Decryption or Authentication failed!".to_string());
        },
        Some(p) => p,
    };
    proof {
        assert forall|nonce: Seq<u8>, text: Seq<char>|
            nonce.len() == 12 && encode_utf8(text).len() < aead_max_len() && encoded@ == #[trigger] sealed_payload(secret@, nonce, text) implies plain@
            == encode_utf8(text) by {
            assert(decoded@ == sealed_bytes(key@, nonce, encode_utf8(text)));
        }
    }
    match utf8_to_string(plain) {
        Some(s) => Ok(s),
        None => Err("Invalid UTF-8".to_string()),
    }
}

// ----------------------------------------------------------------------
// Chunk file names
// ----------------------------------------------------------------------

pub open spec fn hex_digit_char(d: nat) -> char {
    if d < 10 {
        ((d + 48) as u8) as char
    } else {
        ((d + 87) as u8) as char
    }
}

/// `n` in lowercase hexadecimal, without leading zeros.
pub open spec fn hex_lower(n: nat) -> Seq<char>
    decreases n,
{
    if n < 16 {
        seq![hex_digit_char(n)]
    } else {
        hex_lower(n / 16).push(hex_digit_char(n % 16))
    }
}

/// `n` as `format!("{:04x}", n)` writes it: lowercase hexadecimal, padded
/// with zeros to four digits.
pub open spec fn hex4(n: nat) -> Seq<char> {
    if n < 65536 {
        seq![
            hex_digit_char(n / 4096),
            hex_digit_char((n / 256) % 16),
            hex_digit_char((n / 16) % 16),
            hex_digit_char(n % 16),
        ]
    } else {
        hex_lower(n)
    }
}

pub(crate) fn hex_digit_exec(d: u32) -> (c: char)
    requires
        d < 16,
    ensures
        c == hex_digit_char(d as nat),
{
    if d < 10 {
        ((d + 48) as u8) as char
    } else {
        ((d + 87) as u8) as char
    }
}

pub(crate) fn push_hex_lower(out: &mut Vec<char>, n: u32)
    ensures
        final(out)@ == old(out)@ + hex_lower(n as nat),
    decreases n,
{
    if n >= 16 {
        push_hex_lower(out, n / 16);
    }
    let c = hex_digit_exec(n % 16);
    out.push(c);
    proof {
        if n >= 16 {
            assert(hex_lower(n as nat) == hex_lower((n / 16) as nat).push(c));
        } else {
            assert(hex_lower(n as nat) =~= seq![c]);
        }
    }
}

fn push_hex4(out: &mut Vec<char>, n: u32)
    ensures
        final(out)@ == old(out)@ + hex4(n as nat),
{
    if n < 65536 {
        out.push(hex_digit_exec(n / 4096));
        out.push(hex_digit_exec((n / 256) % 16));
        out.push(hex_digit_exec((n / 16) % 16));
        out.push(hex_digit_exec(n % 16));
        proof {
            assert(final(out)@ =~= old(out)@ + hex4(n as nat));
        }
    } else {
        push_hex_lower(out, n);
    }
}

/// The plaintext of a chunk's file name: the file's checksum, then the
/// chunk's number.
pub open spec fn chunk_plaintext(md5: Seq<char>, chunk_index: u32) -> Seq<char> {
    md5 + hex4(chunk_index as nat)
}

/// The file name a chunk is sealed into, under a secret and a nonce.
pub open spec fn sealed_chunk_name(secret: Seq<char>, nonce: Seq<u8>, md5: Seq<char>, chunk_index: u32) -> Seq<char> {
    hex_text(sealed_bytes(secret_key(encode_utf8(secret)), nonce, encode_utf8(chunk_plaintext(md5, chunk_index))))
}

/// Text made of lowercase hexadecimal digits only.
pub open spec fn is_hex_name(s: Seq<char>) -> bool {
    forall|i: int| 0 <= i < s.len() ==> is_lower_hex_char(#[trigger] s[i])
}

/// Seals a chunk's checksum and number into a file name, with a fresh nonce.
pub fn encrypt_chunk_filename(secret: &str, md5_str: &str, chunk_index: u32) -> (r: String)
    requires
        encode_utf8(chunk_plaintext(md5_str@, chunk_index)).len() < aead_max_len(),
    ensures
        exists|nonce: Seq<u8>| nonce.len() == 12 && r@ == #[trigger] sealed_chunk_name(secret@, nonce, md5_str@, chunk_index),
        is_hex_name(r@),
        r@.len() == 2 * (encode_utf8(chunk_plaintext(md5_str@, chunk_index)).len() + 28),
{
    let key = key_from_secret(secret);
    let mut plain: Vec<char> = chars_of(md5_str);
    push_hex4(&mut plain, chunk_index);
    let text = string_from_chars(plain.as_slice());
    proof {
        lemma_encode_utf8_concat(md5_str@, hex4(chunk_index as nat));
        lemma_hex4_ascii(chunk_index as nat);
        assert(text@ == chunk_plaintext(md5_str@, chunk_index));
    }
    let sealed = seal_with_fresh_nonce(&key, text.as_str().as_bytes());
    let r = hex_encode(sealed.as_slice());
    proof {
        let nonce = choose|nonce: Seq<u8>| nonce.len() == 12 && sealed@ == #[trigger] sealed_bytes(key@, nonce, encode_utf8(text@));
        assert(r@ == sealed_chunk_name(secret@, nonce, md5_str@, chunk_index));
    }
    r
}

/// A plaintext whose last four bytes would start inside a character.
pub open spec fn tail_splits_char(b: Seq<u8>) -> bool {
    b.len() >= 4 && is_continuation_byte(b[b.len() - 4])
}

/// The chunk number a plaintext ends with: its last four bytes read as a
/// hexadecimal `u32`.
pub open spec fn index_of_plaintext(b: Seq<u8>) -> Option<u32> {
    if b.len() < 4 {
        None
    } else {
        match parse_unsigned(decode_utf8(b.skip(b.len() - 4)), 16, u32::MAX as nat) {
            Some(v) => Some(v as u32),
            None => None,
        }
    }
}

/// Reads the chunk number from the end of a decrypted file name.
pub fn chunk_index_from_plaintext(bytes: &Vec<u8>) -> (r: Option<u32>)
    requires
        valid_utf8(bytes@),
        !tail_splits_char(bytes@),
    ensures
        r == index_of_plaintext(bytes@),
{
    if bytes.len() < 4 {
        return None;
    }
    let tail = copy_range(bytes, bytes.len() - 4, bytes.len());
    proof {
        assert(tail@ =~= bytes@.skip(bytes@.len() - 4));
        assert(tail@ =~= bytes@.subrange(bytes@.len() - 4, bytes@.len() as int));
        assert(vstd::utf8::is_char_boundary(bytes@, bytes@.len() - 4));
    }
    match utf8_to_string(tail) {
        None => None,
        Some(s) => {
            let cs = chars_of(s.as_str());
            match parse_radix(cs.as_slice(), 16, 0xffff_ffff) {
                Some(v) => Some(v as u32),
                None => None,
            }
        },
    }
}

pub open spec fn zip_suffix() -> Seq<char> {
    seq!['.', 'z', 'i', 'p']
}

/// A file name without its `.zip` extension, when it has one.
pub open spec fn without_zip(name: Seq<char>) -> Seq<char> {
    if name.len() >= 4 && name.skip(name.len() - 4) == zip_suffix() {
        name.take(name.len() - 4)
    } else {
        name
    }
}

/// The chunk number sealed in a file name under a secret, if it is one.
pub open spec fn chunk_index_of_name(secret: Seq<char>, name: Seq<char>) -> Option<u32> {
    match hex_bytes(without_zip(name)) {
        None => None,
        Some(d) => match opened_bytes(secret_key(encode_utf8(secret)), d) {
            None => None,
            Some(p) => if !valid_utf8(p) || tail_splits_char(p) {
                None
            } else {
                index_of_plaintext(p)
            },
        },
    }
}

/// Reads the chunk number sealed in a file name under `secret`. A name
/// whose plaintext would have to be cut inside a character reads as no
/// chunk. A name that `encrypt_chunk_filename` sealed under the same secret,
/// with or without `.zip` after it, reads as its chunk number when that is
/// below `0x10000` (the names it makes are lowercase hexadecimal).
pub fn decrypt_chunk_filename(secret: &str, filename: &str) -> (r: Option<u32>)
    ensures
        r == chunk_index_of_name(secret@, filename@),
        forall|nonce: Seq<u8>, md5: Seq<char>, idx: u32|
            nonce.len() == 12 && idx < 65536 && encode_utf8(chunk_plaintext(md5, idx)).len() < aead_max_len() && is_hex_name(sealed_chunk_name(secret@, nonce, md5, idx)) && (filename@ == #[trigger] sealed_chunk_name(secret@, nonce, md5, idx)
                || filename@ == sealed_chunk_name(secret@, nonce, md5, idx) + zip_suffix()) ==> r == Some(idx),
{
    let key = key_from_secret(secret);
    let name = chars_of(filename);
    let zip = chars_of(".zip");
    proof {
        reveal_strlit(".zip");
        assert(zip@ =~= zip_suffix());
    }
    let base = if has_suffix(name.as_slice(), zip.as_slice()) {
        slice_chars(name.as_slice(), 0, name.len() - 4)
    } else {
        slice_chars(name.as_slice(), 0, name.len())
    };
    proof {
        assert(base@ =~= without_zip(filename@));
    }
    let base_s = string_from_chars(base.as_slice());
    let ghost sealed_ok = forall|nonce: Seq<u8>, md5: Seq<char>, idx: u32|
        nonce.len() == 12 && idx < 65536 && encode_utf8(chunk_plaintext(md5, idx)).len() < aead_max_len() && is_hex_name(sealed_chunk_name(secret@, nonce, md5, idx)) && (filename@ == #[trigger] sealed_chunk_name(secret@, nonce, md5, idx)
            || filename@ == sealed_chunk_name(secret@, nonce, md5, idx) + zip_suffix()) ==> base@
            == sealed_chunk_name(secret@, nonce, md5, idx);
    assert(sealed_ok) by {
        assert forall|nonce: Seq<u8>, md5: Seq<char>, idx: u32|
            nonce.len() == 12 && idx < 65536 && encode_utf8(chunk_plaintext(md5, idx)).len() < aead_max_len() && is_hex_name(sealed_chunk_name(secret@, nonce, md5, idx)) && (filename@ == #[trigger] sealed_chunk_name(secret@, nonce, md5, idx)
                || filename@ == sealed_chunk_name(secret@, nonce, md5, idx) + zip_suffix()) implies base@
                == sealed_chunk_name(secret@, nonce, md5, idx) by {
            let h = sealed_chunk_name(secret@, nonce, md5, idx);
            if filename@ == h {
                if h.len() >= 4 && h.skip(h.len() - 4) == zip_suffix() {
                    assert(h.skip(h.len() - 4)[0] == '.');
                    assert(is_lower_hex_char(h[h.len() - 4]));
                }
            } else {
                assert(filename@.take(filename@.len() - 4) =~= h);
                assert(filename@.skip(filename@.len() - 4) =~= zip_suffix());
            }
        }
    }
    let decoded = match hex_decode(base_s.as_str()) {
        None => {
            return None;
        },
        Some(d) => d,
    };
    let plain = match open_sealed(&key, &decoded) {
        None => {
            return None;
        },
        Some(p) => p,
    };
    proof {
        assert forall|nonce: Seq<u8>, md5: Seq<char>, idx: u32|
            nonce.len() == 12 && idx < 65536 && encode_utf8(chunk_plaintext(md5, idx)).len() < aead_max_len() && is_hex_name(sealed_chunk_name(secret@, nonce, md5, idx)) && (filename@ == #[trigger] sealed_chunk_name(secret@, nonce, md5, idx)
                || filename@ == sealed_chunk_name(secret@, nonce, md5, idx) + zip_suffix()) implies
            plain@ == encode_utf8(chunk_plaintext(md5, idx)) by {
            assert(decoded@ == sealed_bytes(key@, nonce, encode_utf8(chunk_plaintext(md5, idx))));
        }
    }
    let text = plain.clone();
    if utf8_to_string(text).is_none() {
        return None;
    }
    if plain.len() >= 4 && plain[plain.len() - 4] >= 0x80 && plain[plain.len() - 4] <= 0xbf {
        proof {
            assert forall|nonce: Seq<u8>, md5: Seq<char>, idx: u32|
                nonce.len() == 12 && idx < 65536 && encode_utf8(chunk_plaintext(md5, idx)).len() < aead_max_len() && is_hex_name(sealed_chunk_name(secret@, nonce, md5, idx)) && (filename@ == #[trigger] sealed_chunk_name(secret@, nonce, md5, idx)
                    || filename@ == sealed_chunk_name(secret@, nonce, md5, idx) + zip_suffix()) implies false by {
                lemma_plaintext_tail(md5, idx);
            }
        }
        return None;
    }
    let r = chunk_index_from_plaintext(&plain);
    proof {
        assert forall|nonce: Seq<u8>, md5: Seq<char>, idx: u32|
            nonce.len() == 12 && idx < 65536 && encode_utf8(chunk_plaintext(md5, idx)).len() < aead_max_len() && is_hex_name(sealed_chunk_name(secret@, nonce, md5, idx)) && (filename@ == #[trigger] sealed_chunk_name(secret@, nonce, md5, idx)
                || filename@ == sealed_chunk_name(secret@, nonce, md5, idx) + zip_suffix()) implies r == Some(idx) by {
            lemma_plaintext_tail(md5, idx);
        }
    }
    r
}

// ----------------------------------------------------------------------
// Lemmas on the plaintext of a chunk name
// ----------------------------------------------------------------------

pub(crate) proof fn lemma_encode_utf8_concat(a: Seq<char>, b: Seq<char>)
    ensures
        encode_utf8(a + b) == encode_utf8(a) + encode_utf8(b),
    decreases a.len(),
{
    if a.len() == 0 {
        assert(a + b =~= b);
        assert(encode_utf8(a) =~= Seq::<u8>::empty());
        assert(encode_utf8(a) + encode_utf8(b) =~= encode_utf8(b));
    } else {
        assert((a + b).drop_first() =~= a.drop_first() + b);
        assert((a + b)[0] == a[0]);
        lemma_encode_utf8_concat(a.drop_first(), b);
        assert(encode_utf8(a + b) =~= encode_utf8(a) + encode_utf8(b));
    }
}

proof fn lemma_hex4_ascii(n: nat)
    ensures
        vstd::utf8::is_ascii_chars(hex4(n)),
{
    if n >= 65536 {
        lemma_hex_lower_ascii(n);
    }
}

proof fn lemma_hex_lower_ascii(n: nat)
    ensures
        vstd::utf8::is_ascii_chars(hex_lower(n)),
    decreases n,
{
    if n >= 16 {
        lemma_hex_lower_ascii(n / 16);
        assert forall|i: int| 0 <= i < hex_lower(n).len() implies '\0' <= #[trigger] hex_lower(n)[i]
            <= '\u{7f}' by {
            if i < hex_lower(n / 16).len() {
                assert(hex_lower(n)[i] == hex_lower(n / 16)[i]);
            }
        }
    }
}

/// The last four bytes of a chunk name's plaintext, for a number below
/// `0x10000`, are its four hexadecimal digits and start a character.
proof fn lemma_plaintext_tail(md5: Seq<char>, idx: u32)
    requires
        idx < 65536,
    ensures
        ({
            let b = encode_utf8(chunk_plaintext(md5, idx));
            &&& b.len() >= 4
            &&& !tail_splits_char(b)
            &&& index_of_plaintext(b) == Some(idx)
        }),
{
    let h = hex4(idx as nat);
    lemma_encode_utf8_concat(md5, h);
    lemma_hex4_ascii(idx as nat);
    let b = encode_utf8(chunk_plaintext(md5, idx));
    let eh = encode_utf8(h);
    assert(eh.len() == 4);
    assert(b.skip(b.len() - 4) =~= eh);
    assert(b[b.len() - 4] == eh[0]);
    assert(eh[0] == h[0] as u8);
    assert(decode_utf8(eh) == h);
    lemma_hex4_parses(idx);
}

proof fn lemma_hex4_parses(idx: u32)
    requires
        idx < 65536,
    ensures
        parse_unsigned(hex4(idx as nat), 16, u32::MAX as nat) == Some(idx as nat),
{
    let n = idx as nat;
    let h = hex4(n);
    let d0 = n / 4096;
    let d1 = (n / 256) % 16;
    let d2 = (n / 16) % 16;
    let d3 = n % 16;
    assert(d0 < 16);
    assert(digit_of(hex_digit_char(d0), 16) == Some(d0));
    assert(digit_of(hex_digit_char(d1), 16) == Some(d1));
    assert(digit_of(hex_digit_char(d2), 16) == Some(d2));
    assert(digit_of(hex_digit_char(d3), 16) == Some(d3));
    assert(h[0] != '+');
    assert(crate::text::all_digits(h, 16));
    reveal_with_fuel(digits_value, 5);
    assert(h.drop_last().drop_last().drop_last().drop_last() =~= Seq::<char>::empty());
    assert(h.drop_last().drop_last().drop_last() =~= seq![h[0]]);
    assert(h.drop_last().drop_last() =~= seq![h[0], h[1]]);
    assert(h.drop_last() =~= seq![h[0], h[1], h[2]]);
    assert(((d0 * 16 + d1) * 16 + d2) * 16 + d3 == n) by (nonlinear_arith)
        requires
            d0 == n / 4096,
            d1 == (n / 256) % 16,
            d2 == (n / 16) % 16,
            d3 == n % 16,
            n < 65536,
    ;
}

} // verus!
