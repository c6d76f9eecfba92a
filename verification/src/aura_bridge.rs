use vstd::prelude::*;
use vstd::string::StringSliceAdditionalSpecFns;

verus! {

broadcast use vstd::string::to_string_from_display_ensures_for_str;

/// The MD5 digest of `data`, as the `md5` crate computes it.
pub uninterp spec fn md5_digest(data: Seq<u8>) -> Seq<u8>;

/// Calls `md5::compute` on `data` and returns the 16 bytes of the digest.
/// The contract names the digest and claims nothing else of it.
#[verifier::external_body]
fn md5_compute(data: &[u8]) -> (digest: [u8; 16])
    ensures
        digest@ == md5_digest(data@),
{
    md5::compute(data).0
}

/// Calls `String::push`, which appends `c` to the end of `s`.
#[verifier::external_body]
pub(crate) fn string_push(s: &mut String, c: char)
    ensures
        final(s)@ == old(s)@.push(c),
{
    s.push(c)
}

/// The lower-case hexadecimal digit of `nibble` (which is below 16).
pub open spec fn spec_hex_digit(nibble: u8) -> char {
    if nibble < 10 {
        (48 + nibble) as char
    } else {
        (87 + nibble) as char
    }
}

/// The lower-case hexadecimal form of `bytes`: two digits per byte, high
/// nibble first.
pub open spec fn spec_lower_hex(bytes: Seq<u8>) -> Seq<char> {
    Seq::new(
        2 * bytes.len(),
        |i: int|
            if i % 2 == 0 {
                spec_hex_digit(bytes[i / 2] >> 4u8)
            } else {
                spec_hex_digit(bytes[i / 2] & 15u8)
            },
    )
}

/// `c` is one of the sixteen lower-case hexadecimal digits `0`-`9`, `a`-`f`.
pub open spec fn is_lower_hex_char(c: char) -> bool {
    (48 <= c as int <= 57) || (97 <= c as int <= 102)
}

/// The number that the hexadecimal digit `c` stands for.
pub open spec fn hex_char_value(c: char) -> int {
    if c as int <= 57 {
        c as int - 48
    } else {
        c as int - 87
    }
}

proof fn lemma_nibbles(b: u8)
    by (bit_vector)
    ensures
        b >> 4u8 < 16,
        b & 15u8 < 16,
        (b >> 4u8) * 16 + (b & 15u8) == b,
{
}

/// Lower-case hexadecimal is a faithful encoding: it writes two digits per
/// byte, every character is a lower-case hexadecimal digit, and reading each
/// pair of digits (high first) gives back the byte it was written from.
pub proof fn lemma_lower_hex_decodes(bytes: Seq<u8>)
    ensures
        spec_lower_hex(bytes).len() == 2 * bytes.len(),
        forall|i: int| 0 <= i < 2 * bytes.len() ==> is_lower_hex_char(#[trigger] spec_lower_hex(bytes)[i]),
        forall|i: int|
            0 <= i < bytes.len() ==> hex_char_value(#[trigger] spec_lower_hex(bytes)[2 * i]) * 16
                + hex_char_value(spec_lower_hex(bytes)[2 * i + 1]) == bytes[i],
{
    let hex = spec_lower_hex(bytes);
    assert forall|i: int| 0 <= i < 2 * bytes.len() implies is_lower_hex_char(#[trigger] hex[i]) by {
        lemma_nibbles(bytes[i / 2]);
    }
    assert forall|i: int| 0 <= i < bytes.len() implies hex_char_value(#[trigger] hex[2 * i]) * 16
        + hex_char_value(hex[2 * i + 1]) == bytes[i] by {
        assert((2 * i) / 2 == i && (2 * i) % 2 == 0);
        assert((2 * i + 1) / 2 == i && (2 * i + 1) % 2 == 1);
        lemma_nibbles(bytes[i]);
    }
}

fn hex_digit(nibble: u8) -> (c: char)
    requires
        nibble < 16,
    ensures
        c == spec_hex_digit(nibble),
{
    if nibble < 10 {
        (48 + nibble) as char
    } else {
        (87 + nibble) as char
    }
}

/// Writes `bytes` in lower-case hexadecimal, two digits per byte.
pub fn to_lower_hex(bytes: &[u8]) -> (hex: String)
    ensures
        hex@ == spec_lower_hex(bytes@),
{
    let mut hex = String::new();
    let mut i: usize = 0;
    while i < bytes.len()
        invariant
            i <= bytes@.len(),
            hex@ =~= spec_lower_hex(bytes@.take(i as int)),
        decreases bytes@.len() - i,
    {
        let b = bytes[i];
        assert(b >> 4u8 < 16 && b & 15u8 < 16) by (bit_vector);
        string_push(&mut hex, hex_digit(b >> 4u8));
        string_push(&mut hex, hex_digit(b & 15u8));
        i = i + 1;
        assert(hex@ =~= spec_lower_hex(bytes@.take(i as int)));
    }
    assert(bytes@.take(bytes@.len() as int) =~= bytes@);
    hex
}

/// A node of an agent's abstract syntax tree, tagged with the hash of the
/// intent it was made from.
pub struct AuraAstNode {
    pub node_id: u64,
    pub parent_id: u64,
    pub opcode: u8,
    /// The lower-case hexadecimal MD5 digest of the intent's UTF-8 bytes.
    pub content_hash: String,
    pub intent: String,
    pub meta: [u8; 16],
}

/// Turns intents into syntax tree nodes.
pub struct AuraIntentTranslator;

impl AuraIntentTranslator {
    /// Builds the node for `intent`, hashing the intent's bytes.
    pub fn tokenize_intent(opcode: u8, parent_id: u64, node_id: u64, intent: &str, meta: [u8; 16]) -> (node:
        AuraAstNode)
        ensures
            node.node_id == node_id,
            node.parent_id == parent_id,
            node.opcode == opcode,
            node.content_hash@ == spec_lower_hex(md5_digest(intent.spec_bytes())),
            node.content_hash@.len() == 32,
            node.intent@ == intent@,
            node.meta@ == meta@,
    {
        let digest = md5_compute(intent.as_bytes());
        AuraAstNode {
            node_id,
            parent_id,
            opcode,
            content_hash: to_lower_hex(&digest),
            intent: intent.to_string(),
            meta,
        }
    }
}

} // verus!
