//! The calls into other crates and into the parts of the standard library
//! that vstd leaves unspecified. Each item states what the callee's
//! documentation or source shows; nothing here is proved.
use vstd::prelude::*;
use vstd::utf8::{decode_utf8, valid_utf8};
use base64::Engine as _;
use chacha20poly1305::aead::{Aead, AeadCore, KeyInit};

verus! {

// ----------------------------------------------------------------------
// Base64 (`base64` crate)
// ----------------------------------------------------------------------

/// The digit for a six-bit value, in the standard alphabet
/// (`A-Z a-z 0-9 + /`) or in the URL-safe one (`A-Z a-z 0-9 - _`).
pub open spec fn base64_digit(d: int, url: bool) -> char {
    if d < 26 {
        (('A' as int) + d) as char
    } else if d < 52 {
        (('a' as int) + d - 26) as char
    } else if d < 62 {
        (('0' as int) + d - 52) as char
    } else if d == 62 {
        if url { '-' } else { '+' }
    } else {
        if url { '_' } else { '/' }
    }
}

/// Base64 of `bytes` (RFC 4648): each three bytes become four digits, high
/// bits first; a last group of one or two bytes becomes two or three
/// digits, followed, with `pad`, by `=` up to four.
pub open spec fn base64_text(bytes: Seq<u8>, url: bool, pad: bool) -> Seq<char>
    decreases bytes.len(),
{
    if bytes.len() == 0 {
        Seq::empty()
    } else if bytes.len() == 1 {
        let a = bytes[0] as int;
        seq![base64_digit(a / 4, url), base64_digit((a % 4) * 16, url)] + if pad {
            seq!['=', '=']
        } else {
            Seq::<char>::empty()
        }
    } else if bytes.len() == 2 {
        let a = bytes[0] as int;
        let b = bytes[1] as int;
        seq![base64_digit(a / 4, url), base64_digit((a % 4) * 16 + b / 16, url), base64_digit((b % 16) * 4, url)]
            + if pad {
            seq!['=']
        } else {
            Seq::<char>::empty()
        }
    } else {
        let a = bytes[0] as int;
        let b = bytes[1] as int;
        let c = bytes[2] as int;
        seq![
            base64_digit(a / 4, url),
            base64_digit((a % 4) * 16 + b / 16, url),
            base64_digit((b % 16) * 4 + c / 64, url),
            base64_digit(c % 64, url),
        ] + base64_text(bytes.skip(3), url, pad)
    }
}

/// What `base64::engine::general_purpose::STANDARD.encode` returns: the
/// standard alphabet, padded.
#[verifier::opaque]
pub open spec fn base64_standard(bytes: Seq<u8>) -> Seq<char> {
    base64_text(bytes, false, true)
}

/// What `base64::engine::general_purpose::URL_SAFE_NO_PAD.encode` returns:
/// the URL-safe alphabet, unpadded.
#[verifier::opaque]
pub open spec fn base64_url_nopad(bytes: Seq<u8>) -> Seq<char> {
    base64_text(bytes, true, false)
}

/// What `base64::engine::general_purpose::STANDARD.decode` returns, `None` for an error.
pub uninterp spec fn base64_standard_decoded(text: Seq<char>) -> Option<Seq<u8>>;

/// What `base64::engine::general_purpose::URL_SAFE_NO_PAD.decode` returns, `None` for an error.
pub uninterp spec fn base64_url_nopad_decoded(text: Seq<char>) -> Option<Seq<u8>>;

/// A character of the standard alphabet, or the `=` padding.
pub open spec fn is_base64_standard_char(c: char) -> bool {
    ('A' <= c && c <= 'Z') || ('a' <= c && c <= 'z') || ('0' <= c && c <= '9') || c == '+'
        || c == '/' || c == '='
}

/// `STANDARD.encode(bytes)`: named; its output is drawn from the standard
/// alphabet and `=`, and `STANDARD.decode` gives the bytes back from it, as
/// the crate documents.
#[verifier::external_body]
pub(crate) fn base64_standard_encode(bytes: &[u8]) -> (r: String)
    ensures
        r@ == base64_standard(bytes@),
        forall|i: int| 0 <= i < r@.len() ==> is_base64_standard_char(#[trigger] r@[i]),
        base64_standard_decoded(r@) == Some(bytes@),
{
    base64::engine::general_purpose::STANDARD.encode(bytes)
}

/// `STANDARD.decode(text)`, `None` for its error. Stated besides the name:
/// the text that `encode` made of some bytes decodes to those bytes; empty
/// text decodes to no bytes; a character outside the alphabet and other
/// than `=` fails (the crate's `InvalidByte`). What else fails, padding and
/// length among it, is left to the name.
#[verifier::external_body]
pub(crate) fn base64_standard_decode(text: &str) -> (r: Option<Vec<u8>>)
    ensures
        match r {
            Some(v) => base64_standard_decoded(text@) == Some(v@),
            None => base64_standard_decoded(text@) is None,
        },
        match r {
            Some(v) => forall|b: Seq<u8>| #[trigger] base64_standard(b) == text@ ==> v@ == b,
            None => forall|b: Seq<u8>| #[trigger] base64_standard(b) != text@,
        },
        match r {
            Some(v) => (text@.len() == 0 ==> v@.len() == 0) && forall|i: int|
                0 <= i < text@.len() ==> is_base64_standard_char(#[trigger] text@[i]),
            None => text@.len() > 0,
        },
{
    base64::engine::general_purpose::STANDARD.decode(text).ok()
}

/// A character of the URL-safe alphabet.
pub open spec fn is_base64_url_char(c: char) -> bool {
    ('A' <= c && c <= 'Z') || ('a' <= c && c <= 'z') || ('0' <= c && c <= '9') || c == '-' || c == '_'
}

/// `URL_SAFE_NO_PAD.encode(bytes)`: named; its output is drawn from the
/// URL-safe alphabet, without padding, as the crate documents.
#[verifier::external_body]
pub(crate) fn base64_url_nopad_encode(bytes: &[u8]) -> (r: String)
    ensures
        r@ == base64_url_nopad(bytes@),
        forall|i: int| 0 <= i < r@.len() ==> is_base64_url_char(#[trigger] r@[i]),
{
    base64::engine::general_purpose::URL_SAFE_NO_PAD.encode(bytes)
}

/// `URL_SAFE_NO_PAD.decode(text)`, `None` for its error. Stated besides the
/// name: the text that `encode` made of some bytes decodes to those bytes;
/// empty text decodes to no bytes; a character outside the alphabet and
/// other than `=` fails (the crate's `InvalidByte`). What else fails, padding
/// and length among it, is left to the name.
#[verifier::external_body]
pub(crate) fn base64_url_nopad_decode(text: &str) -> (r: Option<Vec<u8>>)
    ensures
        match r {
            Some(v) => base64_url_nopad_decoded(text@) == Some(v@),
            None => base64_url_nopad_decoded(text@) is None,
        },
        match r {
            Some(v) => forall|b: Seq<u8>| #[trigger] base64_url_nopad(b) == text@ ==> v@ == b,
            None => forall|b: Seq<u8>| #[trigger] base64_url_nopad(b) != text@,
        },
        match r {
            Some(v) => (text@.len() == 0 ==> v@.len() == 0) && forall|i: int|
                0 <= i < text@.len() ==> is_base64_url_char(#[trigger] text@[i]) || text@[i] == '=',
            None => text@.len() > 0,
        },
{
    base64::engine::general_purpose::URL_SAFE_NO_PAD.decode(text).ok()
}

// ----------------------------------------------------------------------
// Hex (`hex` crate)
// ----------------------------------------------------------------------

/// A lowercase hexadecimal digit, the alphabet `hex::encode` writes.
pub open spec fn is_lower_hex_char(c: char) -> bool {
    ('0' <= c && c <= '9') || ('a' <= c && c <= 'f')
}

/// The lowercase digit of a value below 16.
pub open spec fn lower_hex_digit(d: int) -> char {
    if d < 10 {
        (('0' as int) + d) as char
    } else {
        (('a' as int) + d - 10) as char
    }
}

/// A digit `hex::decode` reads, in either case.
pub open spec fn is_hex_char(c: char) -> bool {
    ('0' <= c && c <= '9') || ('a' <= c && c <= 'f') || ('A' <= c && c <= 'F')
}

/// The value of such a digit.
pub open spec fn hex_value(c: char) -> int {
    if '0' <= c && c <= '9' {
        c as int - '0' as int
    } else if 'a' <= c && c <= 'f' {
        c as int - 'a' as int + 10
    } else {
        c as int - 'A' as int + 10
    }
}

/// What `hex::encode` returns: each byte as two lowercase digits, high
/// nibble first.
#[verifier::opaque]
pub open spec fn hex_text(bytes: Seq<u8>) -> Seq<char> {
    Seq::new(
        bytes.len() * 2,
        |i: int|
            lower_hex_digit(
                if i % 2 == 0 {
                    bytes[i / 2] / 16
                } else {
                    bytes[i / 2] % 16
                } as int,
            ),
    )
}

/// What `hex::decode` returns, `None` for its error: an odd length or a
/// character that is not a hexadecimal digit fails; otherwise each pair of
/// digits is one byte, high nibble first.
#[verifier::opaque]
pub open spec fn hex_bytes(text: Seq<char>) -> Option<Seq<u8>> {
    if text.len() % 2 == 0 && forall|i: int| 0 <= i < text.len() ==> is_hex_char(#[trigger] text[i]) {
        Some(Seq::new(text.len() / 2, |i: int| (hex_value(text[2 * i]) * 16 + hex_value(text[2 * i + 1])) as u8))
    } else {
        None
    }
}

/// `hex::encode(bytes)`: two lowercase digits per byte, as the crate
/// documents; its output is drawn from `0`..`9` and `a`..`f`.
#[verifier::external_body]
pub(crate) fn hex_encode(bytes: &[u8]) -> (r: String)
    ensures
        r@ == hex_text(bytes@),
        r@.len() == 2 * bytes@.len(),
        forall|i: int| 0 <= i < r@.len() ==> is_lower_hex_char(#[trigger] r@[i]),
{
    hex::encode(bytes)
}

/// `hex::decode(text)`, `None` for its error. Stated besides: the text that
/// `encode` made of some bytes decodes to those bytes.
#[verifier::external_body]
pub(crate) fn hex_decode(text: &str) -> (r: Option<Vec<u8>>)
    ensures
        match r {
            Some(v) => hex_bytes(text@) == Some(v@),
            None => hex_bytes(text@) is None,
        },
        match r {
            Some(v) => forall|b: Seq<u8>| #[trigger] hex_text(b) == text@ ==> v@ == b,
            None => forall|b: Seq<u8>| #[trigger] hex_text(b) != text@,
        },
{
    hex::decode(text).ok()
}

// ----------------------------------------------------------------------
// ChaCha20-Poly1305 (`chacha20poly1305` crate)
// ----------------------------------------------------------------------

/// The longest plaintext that the cipher accepts (its block counter is 32 bits).
pub open spec fn aead_max_len() -> nat {
    64 * 4294967295
}

/// What `ChaCha20Poly1305::new(key).encrypt(nonce, plaintext)` returns.
pub uninterp spec fn aead_seal(key: Seq<u8>, nonce: Seq<u8>, plaintext: Seq<u8>) -> Seq<u8>;

/// What `ChaCha20Poly1305::new(key).decrypt(nonce, ciphertext)` returns, `None` for an error.
pub uninterp spec fn aead_open(key: Seq<u8>, nonce: Seq<u8>, ciphertext: Seq<u8>) -> Option<Seq<u8>>;

/// `ChaCha20Poly1305::encrypt` with a 32-byte key and a 12-byte nonce. The
/// crate fails only on a plaintext of `aead_max_len` bytes or more, which the
/// precondition leaves out. Named; the result is the plaintext's length plus
/// the 16-byte tag.
#[verifier::external_body]
pub(crate) fn aead_encrypt(key: &[u8], nonce: &[u8], plaintext: &[u8]) -> (r: Vec<u8>)
    requires
        key@.len() == 32,
        nonce@.len() == 12,
        plaintext@.len() < aead_max_len(),
    ensures
        r@ == aead_seal(key@, nonce@, plaintext@),
        r@.len() == plaintext@.len() + 16,
{
    let cipher = chacha20poly1305::ChaCha20Poly1305::new(chacha20poly1305::Key::from_slice(key));
    cipher.encrypt(chacha20poly1305::Nonce::from_slice(nonce), plaintext).unwrap()
}

/// `ChaCha20Poly1305::decrypt` with a 32-byte key and a 12-byte nonce, `None`
/// for its error. Stated besides the name: what `encrypt` sealed under a key
/// and nonce opens under them to the plaintext.
#[verifier::external_body]
pub(crate) fn aead_decrypt(key: &[u8], nonce: &[u8], ciphertext: &[u8]) -> (r: Option<Vec<u8>>)
    requires
        key@.len() == 32,
        nonce@.len() == 12,
    ensures
        match r {
            Some(v) => aead_open(key@, nonce@, ciphertext@) == Some(v@),
            None => aead_open(key@, nonce@, ciphertext@) is None,
        },
        match r {
            Some(v) => forall|p: Seq<u8>|
                p.len() < aead_max_len() && #[trigger] aead_seal(key@, nonce@, p) == ciphertext@ ==> v@ == p,
            None => forall|p: Seq<u8>|
                p.len() < aead_max_len() ==> #[trigger] aead_seal(key@, nonce@, p) != ciphertext@,
        },
{
    let cipher = chacha20poly1305::ChaCha20Poly1305::new(chacha20poly1305::Key::from_slice(key));
    cipher.decrypt(chacha20poly1305::Nonce::from_slice(nonce), ciphertext).ok()
}

/// `ChaCha20Poly1305::generate_nonce(&mut OsRng)`: twelve random bytes. Only
/// the length is stated; the bytes come from the operating system.
#[verifier::external_body]
pub(crate) fn random_nonce() -> (r: Vec<u8>)
    ensures
        r@.len() == 12,
{
    chacha20poly1305::ChaCha20Poly1305::generate_nonce(&mut chacha20poly1305::aead::OsRng).to_vec()
}

// ----------------------------------------------------------------------
// Regular expressions (`regex` crate)
// ----------------------------------------------------------------------

/// The text of capture group `group` of the leftmost match of `pattern` in
/// `text`, as `Regex::new(pattern)` and `captures(text)` find it; `None` when
/// the pattern does not compile, nothing matches or the group took no part.
pub uninterp spec fn regex_group(pattern: Seq<char>, text: Seq<char>, group: nat) -> Option<Seq<char>>;

/// `Regex::new(pattern)` then `captures(text)` and group `group`: named.
#[verifier::external_body]
pub(crate) fn regex_capture(pattern: &str, text: &str, group: usize) -> (r: Option<String>)
    ensures
        match r {
            Some(s) => regex_group(pattern@, text@, group as nat) == Some(s@),
            None => regex_group(pattern@, text@, group as nat) is None,
        },
{
    let re = regex::Regex::new(pattern).ok()?;
    re.captures(text).and_then(|c| c.get(group)).map(|m| m.as_str().to_string())
}

/// The text with every non-overlapping match of `pattern` replaced by
/// `replacement`, as `Regex::new(pattern)` and `replace_all` give it; the
/// text itself when the pattern does not compile.
pub uninterp spec fn regex_replaced(pattern: Seq<char>, text: Seq<char>, replacement: Seq<char>) -> Seq<char>;

/// `Regex::new(pattern)` then `replace_all(text, replacement)`: named.
#[verifier::external_body]
pub(crate) fn regex_replace_all(pattern: &str, text: &str, replacement: &str) -> (r: String)
    ensures
        r@ == regex_replaced(pattern@, text@, replacement@),
{
    match regex::Regex::new(pattern) {
        Ok(re) => re.replace_all(text, replacement).into_owned(),
        Err(_) => text.to_string(),
    }
}

/// The text of capture group `group` of the last of the non-overlapping
/// matches of `pattern` in `text`, as `captures_iter` yields them; `None`
/// when the pattern does not compile, nothing matches or the group took no
/// part in the last match.
pub uninterp spec fn regex_last_group(pattern: Seq<char>, text: Seq<char>, group: nat) -> Option<Seq<char>>;

/// `Regex::new(pattern)` then the last item of `captures_iter(text)`, group `group`: named.
#[verifier::external_body]
pub(crate) fn regex_last_capture(pattern: &str, text: &str, group: usize) -> (r: Option<String>)
    ensures
        match r {
            Some(s) => regex_last_group(pattern@, text@, group as nat) == Some(s@),
            None => regex_last_group(pattern@, text@, group as nat) is None,
        },
{
    let re = regex::Regex::new(pattern).ok()?;
    re.captures_iter(text).last().and_then(|c| c.get(group)).map(|m| m.as_str().to_string())
}

/// A character that `regex::escape` escapes: one with a meaning in a pattern.
pub open spec fn is_regex_meta(c: char) -> bool {
    c == '\\' || c == '.' || c == '+' || c == '*' || c == '?' || c == '(' || c == ')' || c == '|'
        || c == '[' || c == ']' || c == '{' || c == '}' || c == '^' || c == '$' || c == '#'
        || c == '&' || c == '-' || c == '~'
}

/// What `regex::escape` gives: the text, character by character, with a
/// backslash before each meta character.
pub open spec fn regex_escaped(text: Seq<char>) -> Seq<char>
    decreases text.len(),
{
    if text.len() == 0 {
        Seq::empty()
    } else {
        let c = text.last();
        regex_escaped(text.drop_last()) + if is_regex_meta(c) {
            seq!['\\', c]
        } else {
            seq![c]
        }
    }
}

/// `regex::escape(text)`: every meta character of `text` gets a backslash
/// before it, the rest is copied.
#[verifier::external_body]
pub(crate) fn regex_escape(text: &str) -> (r: String)
    ensures
        r@ == regex_escaped(text@),
{
    regex::escape(text)
}

// ----------------------------------------------------------------------
// Standard library items without a vstd specification
// ----------------------------------------------------------------------

/// `String::from_utf8`, `None` for its error: it accepts exactly the valid
/// UTF-8 byte sequences and decodes them.
#[verifier::external_body]
pub(crate) fn utf8_to_string(bytes: Vec<u8>) -> (r: Option<String>)
    ensures
        r is Some <==> valid_utf8(bytes@),
        r matches Some(s) ==> s@ == decode_utf8(bytes@),
{
    String::from_utf8(bytes).ok()
}

/// What `str::to_lowercase` returns for text that holds a character beyond
/// ASCII.
pub uninterp spec fn lowercase_beyond_ascii(s: Seq<char>) -> Seq<char>;

/// What `str::to_lowercase` returns: on ASCII text, `A`..`Z` become
/// `a`..`z` and every other character stays, as the standard library
/// documents; Unicode's full mapping, one character to one or more, is
/// named for other text.
pub open spec fn unicode_lowercase(s: Seq<char>) -> Seq<char> {
    if crate::text::all_ascii(s) {
        crate::text::ascii_lower(s)
    } else {
        lowercase_beyond_ascii(s)
    }
}

/// `str::to_lowercase`: ASCII text lowered letter by letter; the mapping of
/// text beyond ASCII is named.
#[verifier::external_body]
pub(crate) fn lowercase(s: &str) -> (r: String)
    ensures
        r@ == unicode_lowercase(s@),
        !crate::text::all_ascii(s@) ==> r@ == lowercase_beyond_ascii(s@),
{
    s.to_lowercase()
}

/// What `Path::extension` takes of a file name: what follows its last `.`,
/// none when it has no `.` or only a leading one.
pub open spec fn name_extension(name: Seq<char>) -> Seq<char> {
    match crate::text::last_of(name, '.') {
        None => Seq::<char>::empty(),
        Some(i) => if i == 0 {
            Seq::<char>::empty()
        } else {
            name.skip(i + 1)
        },
    }
}

/// A path whose last component is the same on every platform: no `\\` and
/// no `:` (a separator and a drive prefix on Windows), no `/` at either end,
/// and a last `/`-separated piece other than `.` (which `Path` drops).
pub open spec fn portable_path(name: Seq<char>) -> bool {
    &&& !name.contains('\\')
    &&& !name.contains(':')
    &&& name.len() > 0 ==> name[0] != '/' && name.last() != '/'
    &&& crate::text::after_last(name, '/') != seq!['.']
}

/// `Path::new(name).extension()`, as text, empty when there is none. For a
/// portable path it is the extension of the piece after the last `/`; for
/// other paths it depends on the platform's separators and prefixes and is
/// left unsaid.
#[verifier::external_body]
pub(crate) fn path_extension(name: &str) -> (r: String)
    ensures
        portable_path(name@) ==> r@ == name_extension(crate::text::after_last(name@, '/')),
{
    std::path::Path::new(name).extension().unwrap_or_default().to_string_lossy().to_string()
}

// ----------------------------------------------------------------------
// Checksums (`md5` crate)
// ----------------------------------------------------------------------

/// What `md5::compute` gives of the bytes: their MD5 digest.
pub uninterp spec fn md5_of(bytes: Seq<u8>) -> Seq<u8>;

/// `md5::compute`: the digest of `bytes`, the 16 bytes of its `Digest`.
#[verifier::external_body]
pub(crate) fn md5_digest(bytes: &[u8]) -> (r: Vec<u8>)
    ensures
        r@ == md5_of(bytes@),
        r@.len() == 16,
{
    md5::compute(bytes).0.to_vec()
}

// ----------------------------------------------------------------------
// URLs (`reqwest::Url`, the type of the `url` crate)
// ----------------------------------------------------------------------

/// What `Url::parse(base)` and then `join(reference)` give, as text; `None`
/// when either fails.
pub uninterp spec fn url_joined(base: Seq<char>, reference: Seq<char>) -> Option<Seq<char>>;

/// `Url::parse(base)`, then `join(reference)`, then `to_string()`: named.
#[verifier::external_body]
pub(crate) fn url_join(base: &str, reference: &str) -> (r: Option<String>)
    ensures
        match r {
            Some(s) => url_joined(base@, reference@) == Some(s@),
            None => url_joined(base@, reference@) is None,
        },
{
    reqwest::Url::parse(base).and_then(|u| u.join(reference)).ok().map(|u| u.to_string())
}

/// The scheme that `Url::parse` reads in a URL and its host, when it has
/// one, as `host_str` gives it; `None` when the URL does not parse.
pub uninterp spec fn url_scheme_host(url: Seq<char>) -> Option<(Seq<char>, Option<Seq<char>>)>;

/// `Url::parse(url)`, then `scheme()` and `host_str()`: named.
#[verifier::external_body]
pub(crate) fn url_scheme_and_host(url: &str) -> (r: Option<(String, Option<String>)>)
    ensures
        match r {
            Some((s, h)) => url_scheme_host(url@) == Some(
                (
                    s@,
                    match h {
                        Some(x) => Some(x@),
                        None => None,
                    },
                ),
            ),
            None => url_scheme_host(url@) is None,
        },
{
    reqwest::Url::parse(url).ok().map(|u| (u.scheme().to_string(), u.host_str().map(|h| h.to_string())))
}

/// The host of a URL when it is a domain name (not an address), as
/// `Url::parse` and `domain()` give it; `None` when there is none or the URL
/// does not parse.
pub uninterp spec fn url_domain(url: Seq<char>) -> Option<Seq<char>>;

/// `Url::parse(url)`, then `domain()`: named.
#[verifier::external_body]
pub(crate) fn url_domain_of(url: &str) -> (r: Option<String>)
    ensures
        match r {
            Some(d) => url_domain(url@) == Some(d@),
            None => url_domain(url@) is None,
        },
{
    reqwest::Url::parse(url).ok().and_then(|u| u.domain().map(|d| d.to_string()))
}

// ----------------------------------------------------------------------
// Media types (`mime_guess` crate)
// ----------------------------------------------------------------------

/// What `mime_guess::from_path(name).first_or_octet_stream()` names, as
/// text: the first type its table holds for the name's extension, else
/// `application/octet-stream`.
pub uninterp spec fn guessed_mime(name: Seq<char>) -> Seq<char>;

/// `mime_guess::from_path(name).first_or_octet_stream().to_string()`. The
/// table is the crate's own and depends on the name alone.
#[verifier::external_body]
pub(crate) fn mime_for_name(name: &str) -> (r: String)
    ensures
        r@ == guessed_mime(name@),
        !name@.contains('.') ==> r@ == "application/octet-stream"@,
{
    mime_guess::from_path(name).first_or_octet_stream().to_string()
}

} // verus!
