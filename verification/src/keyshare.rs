//! Sharing a public key by words or by a QR code.
//!
//! A key is 24 words of the BIP39 English list, the last of which carries a
//! checksum, so that a phrase read aloud either gives the exact key back or is
//! refused.

use crate::bytes::read_array;
use crate::text::{decimal, is_white, push_decimal, push_text, trim, trim_end, trim_start, trimmed};
use bip39::Mnemonic;
use qrcode::render::unicode::Dense1x2;
use qrcode::QrCode;
use vstd::prelude::*;

verus! {

broadcast use vstd::array::group_array_axioms;

/// Why a phrase or a text is refused.
#[derive(Clone, Copy, Debug, PartialEq, Eq, Structural)]
pub enum KeyShareError {
    NotAMnemonic,
    WrongLength(u64),
    TooLargeForQr,
}

impl KeyShareError {
    /// The message that describes the error.
    pub open spec fn message(self) -> Seq<char> {
        match self {
            KeyShareError::NotAMnemonic =>
                "not a valid BIP39 mnemonic (check word count, spelling, order)"@,
            KeyShareError::WrongLength(n) => "mnemonic decodes to "@ + decimal(n as nat)
                + " bytes, expected 32 — a norn key needs the full 24-word phrase"@,
            KeyShareError::TooLargeForQr => "data too large to fit in a QR code"@,
        }
    }

    /// The message that describes the error.
    pub fn to_string(&self) -> (s: String)
        ensures
            s@ == self.message(),
    {
        let mut out: String = String::new();
        match *self {
            KeyShareError::NotAMnemonic => push_text(
                &mut out,
                "not a valid BIP39 mnemonic (check word count, spelling, order)",
            ),
            KeyShareError::WrongLength(n) => {
                push_text(&mut out, "mnemonic decodes to ");
                push_decimal(&mut out, n);
                push_text(
                    &mut out,
                    " bytes, expected 32 — a norn key needs the full 24-word phrase",
                );
            },
            KeyShareError::TooLargeForQr => push_text(
                &mut out,
                "data too large to fit in a QR code",
            ),
        }
        assert(out@ =~= self.message());
        out
    }
}

/// The BIP39 English phrase for 32 bytes.
pub uninterp spec fn bip39_phrase(entropy: Seq<u8>) -> Seq<char>;

/// The bytes that a BIP39 phrase encodes, if it is one.
pub uninterp spec fn bip39_entropy(phrase: Seq<char>) -> Option<Seq<u8>>;

/// The QR code for some bytes, drawn with half-block characters and a margin,
/// if there is one.
pub uninterp spec fn qr_drawing(data: Seq<u8>) -> Option<Seq<char>>;

/// Calls `bip39::Mnemonic::from_entropy`. Trusted: the phrase depends on the
/// key alone, parses back to the key, and consists of lower-case words with a
/// space between one and the next.
#[verifier::external_body]
fn phrase_of(key: &[u8; 32]) -> (s: String)
    ensures
        s@ == bip39_phrase(key@),
        bip39_entropy(s@) == Some(key@),
        s@.len() > 0 && 97 <= s@[0] as u32 <= 122 && 97 <= s@.last() as u32 <= 122,
{
    Mnemonic::from_entropy(key).expect("32 bytes is a valid entropy length").to_string()
}

/// Calls `bip39::Mnemonic::parse`. Trusted: the answer depends on the phrase
/// alone.
#[verifier::external_body]
fn entropy_of(phrase: &str) -> (r: Option<Vec<u8>>)
    ensures
        match r {
            Some(v) => bip39_entropy(phrase@) == Some(v@),
            None => bip39_entropy(phrase@) is None,
        },
{
    match Mnemonic::parse(phrase) {
        Ok(m) => Some(m.to_entropy()),
        Err(_) => None,
    }
}

/// Calls `qrcode::QrCode::new` and renders the code. Trusted: the drawing
/// depends on the bytes alone.
#[verifier::external_body]
fn draw_qr(data: &[u8]) -> (r: Option<String>)
    ensures
        match r {
            Some(s) => qr_drawing(data@) == Some(s@),
            None => qr_drawing(data@) is None,
        },
{
    match QrCode::new(data) {
        Ok(code) => Some(code.render::<Dense1x2>().quiet_zone(true).build()),
        Err(_) => None,
    }
}

/// The 24-word phrase for a key. Reading the phrase back gives the key.
pub fn to_mnemonic(key: &[u8; 32]) -> (s: String)
    ensures
        s@ == bip39_phrase(key@),
        read_phrase(s@) == Ok::<Seq<u8>, KeyShareError>(key@),
{
    let s: String = phrase_of(key);
    proof {
        lemma_trimmed_words(s@);
    }
    s
}

proof fn lemma_trimmed_words(s: Seq<char>)
    requires
        s.len() > 0,
        97 <= s[0] as u32 <= 122,
        97 <= s.last() as u32 <= 122,
    ensures
        trimmed(s) == s,
{
    assert(!is_white(s[0]) && !is_white(s.last()));
    assert(trim_start(s) == s);
    assert(trim_end(s) == s);
}

/// What a phrase says: the key of which it is the phrase, white space around
/// it aside.
pub open spec fn read_phrase(phrase: Seq<char>) -> Result<Seq<u8>, KeyShareError> {
    key_from_entropy(bip39_entropy(trimmed(phrase)))
}

/// The key that the bytes of a parsed phrase make.
pub open spec fn key_from_entropy(entropy: Option<Seq<u8>>) -> Result<Seq<u8>, KeyShareError> {
    match entropy {
        None => Err(KeyShareError::NotAMnemonic),
        Some(e) => if e.len() == 32 {
            Ok(e)
        } else {
            Err(KeyShareError::WrongLength(e.len() as u64))
        },
    }
}

/// The key that the bytes of a parsed phrase make.
pub fn key_of_entropy(entropy: Option<Vec<u8>>) -> (r: Result<[u8; 32], KeyShareError>)
    ensures
        match key_from_entropy(
            match entropy {
                Some(v) => Some(v@),
                None => None,
            },
        ) {
            Ok(key) => r matches Ok(k) && k@ == key,
            Err(e) => r matches Err(f) && f == e,
        },
{
    match entropy {
        None => Err(KeyShareError::NotAMnemonic),
        Some(v) => {
            if v.len() != 32 {
                return Err(KeyShareError::WrongLength(v.len() as u64));
            }
            let key: [u8; 32] = read_array(v.as_slice(), 0);
            assert(key@ =~= v@);
            Ok(key)
        },
    }
}

/// The key that a phrase encodes. A phrase with a wrong word, a wrong number of
/// words or a wrong checksum is refused.
pub fn from_mnemonic(phrase: &str) -> (r: Result<[u8; 32], KeyShareError>)
    ensures
        match read_phrase(phrase@) {
            Ok(key) => r matches Ok(k) && k@ == key,
            Err(e) => r matches Err(f) && f == e,
        },
{
    let words: &str = trim(phrase);
    key_of_entropy(entropy_of(words))
}

/// `data` as a QR code to print on a terminal.
pub fn qr_terminal(data: &str) -> (r: Result<String, KeyShareError>)
    ensures
        match qr_drawing(vstd::utf8::encode_utf8(data@)) {
            Some(d) => r matches Ok(s) && s@ == d,
            None => r matches Err(e) && e == KeyShareError::TooLargeForQr,
        },
{
    match draw_qr(data.as_bytes()) {
        Some(s) => Ok(s),
        None => Err(KeyShareError::TooLargeForQr),
    }
}

} // verus!
