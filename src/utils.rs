//! The demonstration payload and the conversions around a received payload.
use vstd::prelude::*;
use vstd::string::StringSliceAdditionalSpecFns;
use vstd::utf8::{decode_utf8, valid_utf8};
use vstd::arithmetic::div_mod::{lemma_fundamental_div_mod, lemma_fundamental_div_mod_converse};
use crate::ecc::{create_transmission_bytes, decipher_transmission_bytes, rs_decoded, rs_encoded};

pub use crate::analysis::Analysis;
pub use crate::bits::{bools_to_u8, GetBitAt};

verus! {

/// The text that demonstration transmissions are cut from.
pub const CORPUS: &'static str = "\n\
I met a traveller from an antique land,\n\
Who said—“Two vast and trunkless legs of stone\n\
Stand in the desert. . . . Near them, on the sand,\n\
Half sunk a shattered visage lies, whose frown,\n\
And wrinkled lip, and sneer of cold command,\n\
Tell that its sculptor well those passions read\n\
Which yet survive, stamped on these lifeless things,\n\
The hand that mocked them, and the heart that fed;\n\
And on the pedestal, these words appear:\n\
My name is Ozymandias, King of Kings;\n\
Look on my Works, ye Mighty, and despair!\n\
Nothing beside remains. Round the decay\n\
Of that colossal Wreck, boundless and bare\n\
The lone and level sands stretch far away.\n\
";

/// The bytes of the corpus, as UTF-8.
pub open spec fn corpus() -> Seq<u8> {
    CORPUS.spec_bytes()
}

/// The first `n` bytes of `c` repeated without end; empty if `c` is.
pub open spec fn cycled(c: Seq<u8>, n: nat) -> Seq<u8> {
    if c.len() == 0 {
        Seq::empty()
    } else {
        Seq::new(n, |i: int| c[i % c.len() as int])
    }
}

/// The demonstration payload of `msg_bytes` bytes: the corpus repeated and
/// cut to length, Reed-Solomon protected with `ecc`.
pub fn create_transmission_text(msg_bytes: usize, ecc: bool) -> (r: Vec<u8>)
    ensures
        !ecc ==> r@ == cycled(corpus(), msg_bytes as nat),
        ecc ==> r@ == rs_encoded(cycled(corpus(), msg_bytes as nat)),
{
    let text = CORPUS.as_bytes();
    let mut body: Vec<u8> = Vec::new();
    if text.len() > 0 {
        let mut i: usize = 0;
        let mut k: usize = 0;
        while i < msg_bytes
            invariant
                i <= msg_bytes,
                text@ == corpus(),
                text@.len() > 0,
                k < text@.len(),
                k == (i as int) % (text@.len() as int),
                body@ =~= Seq::new(i as nat, |j: int| text@[j % text@.len() as int]),
            decreases msg_bytes - i,
        {
            body.push(text[k]);
            k = if k + 1 == text.len() { 0 } else { k + 1 };
            proof {
                let len = text@.len() as int;
                let q = (i as int) / len;
                lemma_fundamental_div_mod(i as int, len);
                if k == 0 {
                    assert((q + 1) * len == q * len + len) by (nonlinear_arith);
                    lemma_fundamental_div_mod_converse(i + 1, len, q + 1, 0);
                } else {
                    lemma_fundamental_div_mod_converse(i + 1, len, q, k as int);
                }
            }
            i = i + 1;
        }
    }
    if ecc {
        create_transmission_bytes(body.as_slice())
    } else {
        body
    }
}

#[verifier::external_type_specification]
#[verifier::external_body]
pub struct ExFromUtf8Error(std::string::FromUtf8Error);

/// Relies on `String::from_utf8`: it succeeds exactly on valid UTF-8, and
/// the string then holds the characters that the bytes encode.
#[verifier::external_body]
fn utf8_string(bytes: Vec<u8>) -> (r: Result<String, std::string::FromUtf8Error>)
    ensures
        r is Ok <==> valid_utf8(bytes@),
        r matches Ok(s) ==> s@ == decode_utf8(bytes@),
{
    String::from_utf8(bytes)
}

/// The text of `bytes` when they are valid UTF-8.
pub open spec fn text_of(bytes: Seq<u8>) -> Option<Seq<char>> {
    if valid_utf8(bytes) {
        Some(decode_utf8(bytes))
    } else {
        None
    }
}

/// The first `n` elements of `s`, or all of them if there are fewer.
pub open spec fn first_at_most(s: Seq<u8>, n: nat) -> Seq<u8> {
    if s.len() < n {
        s
    } else {
        s.subrange(0, n as int)
    }
}

/// The text of a received demonstration payload: with `ecc` the codewords
/// are corrected first and at most `num_bytes` of their data are kept.
pub fn decipher_transmission_text(num_bytes: usize, data: Vec<u8>, ecc: bool) -> (r: Option<String>)
    ensures
        !ecc ==> (match r {
            Some(s) => text_of(data@) == Some(s@),
            None => text_of(data@) is None,
        }),
        ecc ==> (match r {
            Some(s) => rs_decoded(data@) matches Some(d) && text_of(first_at_most(d, num_bytes as nat)) == Some(s@),
            None => rs_decoded(data@) is None || (rs_decoded(data@) matches Some(d) && text_of(first_at_most(d, num_bytes as nat)) is None),
        }),
{
    let bytes = if ecc {
        match decipher_transmission_bytes(data.as_slice()) {
            Some(d) => {
                let mut d = d;
                d.truncate(num_bytes);
                d
            },
            None => {
                return None;
            },
        }
    } else {
        data
    };
    match utf8_string(bytes) {
        Ok(s) => Some(s),
        Err(_) => None,
    }
}

/// Keeps the first `block_size` bytes of `received`.
pub fn trim_to(received: Vec<u8>, block_size: usize) -> (r: Vec<u8>)
    requires
        block_size <= received@.len(),
    ensures
        r@ == received@.subrange(0, block_size as int),
{
    let mut received = received;
    received.truncate(block_size);
    received
}

/// A colour of the demonstration palette.
#[derive(Clone, Copy, Debug, PartialEq, Eq, Structural)]
pub struct CustomRgb {
    pub r: u8,
    pub g: u8,
    pub b: u8,
}

/// The colour as a `0x00RRGGBB` word.
pub open spec fn rgb_word(c: CustomRgb) -> u32 {
    (c.r as int * 65536 + c.g as int * 256 + c.b as int) as u32
}

/// Each byte of `d` replaced by the word of its palette colour.
pub open spec fn painted(d: Seq<u8>, palette: Seq<CustomRgb>) -> Seq<u32> {
    Seq::new(d.len(), |i: int| rgb_word(palette[d[i] as int]))
}

/// Turns a received payload into pixels: each byte, after Reed-Solomon
/// correction with `ecc`, names a colour of the 256-entry `palette`.
pub fn decipher_transmision_colorspace(bytes: &[u8], ecc: bool, palette: &[CustomRgb]) -> (r: Option<Vec<u32>>)
    requires
        palette@.len() == 256,
    ensures
        !ecc ==> (r matches Some(v) && v@ == painted(bytes@, palette@)),
        ecc ==> (match r {
            Some(v) => rs_decoded(bytes@) matches Some(d) && v@ == painted(d, palette@),
            None => rs_decoded(bytes@) is None,
        }),
{
    let data = if ecc {
        match decipher_transmission_bytes(bytes) {
            Some(d) => d,
            None => {
                return None;
            },
        }
    } else {
        let mut d: Vec<u8> = Vec::with_capacity(bytes.len());
        let mut i: usize = 0;
        while i < bytes.len()
            invariant
                i <= bytes@.len(),
                d@ == bytes@.subrange(0, i as int),
            decreases bytes@.len() - i,
        {
            d.push(bytes[i]);
            proof {
                assert(bytes@.subrange(0, i + 1) =~= bytes@.subrange(0, i as int).push(bytes@[i as int]));
            }
            i = i + 1;
        }
        assert(bytes@.subrange(0, bytes@.len() as int) =~= bytes@);
        d
    };
    let mut out: Vec<u32> = Vec::with_capacity(data.len());
    let mut i: usize = 0;
    while i < data.len()
        invariant
            i <= data@.len(),
            palette@.len() == 256,
            out@ =~= painted(data@.subrange(0, i as int), palette@),
        decreases data@.len() - i,
    {
        let c = palette[data[i] as usize];
        out.push((c.r as u32) * 65536 + (c.g as u32) * 256 + (c.b as u32));
        i = i + 1;
    }
    assert(data@.subrange(0, data@.len() as int) =~= data@);
    Some(out)
}

} // verus!
