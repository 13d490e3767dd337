//! How numbers, vectors and texts are stored as bytes.

use byteorder::ByteOrder;
use byteorder::LittleEndian;
use vstd::prelude::*;
use vstd::slice::slice_subrange;
use vstd::string::StrSliceExecFns;
use vstd::utf8::decode_utf8;
use vstd::utf8::encode_utf8;
use vstd::utf8::valid_utf8;

verus! {

/// The number that `bytes` denote, most significant byte first.
pub open spec fn be_value(bytes: Seq<u8>) -> nat
    decreases bytes.len(),
{
    if bytes.len() == 0 {
        0
    } else {
        be_value(bytes.drop_last()) * 256 + bytes.last() as nat
    }
}

/// The `width` low bytes of `n`, most significant byte first.
pub open spec fn be_bytes(n: nat, width: nat) -> Seq<u8>
    decreases width,
{
    if width == 0 {
        Seq::empty()
    } else {
        be_bytes(n / 256, (width - 1) as nat).push((n % 256) as u8)
    }
}

/// The number of values that `width` bytes can tell apart.
pub open spec fn byte_range(width: nat) -> nat
    decreases width,
{
    if width == 0 {
        1
    } else {
        256 * byte_range((width - 1) as nat)
    }
}

/// Bytes of a number read back give the number, where the width is enough for it.
pub proof fn lemma_be_round_trip(n: nat, width: nat)
    requires
        n < byte_range(width),
    ensures
        be_bytes(n, width).len() == width,
        be_value(be_bytes(n, width)) == n,
    decreases width,
{
    if width > 0 {
        lemma_be_round_trip(n / 256, (width - 1) as nat);
        assert(be_bytes(n, width).drop_last() =~= be_bytes(n / 256, (width - 1) as nat));
    }
}

/// A number read from bytes and written back on as many bytes gives the bytes.
pub proof fn lemma_be_bytes_of_value(bytes: Seq<u8>)
    ensures
        be_value(bytes) < byte_range(bytes.len()),
        be_bytes(be_value(bytes), bytes.len()) == bytes,
    decreases bytes.len(),
{
    if bytes.len() > 0 {
        lemma_be_bytes_of_value(bytes.drop_last());
        let high = be_value(bytes.drop_last());
        assert((high * 256 + bytes.last() as nat) / 256 == high);
        assert((high * 256 + bytes.last() as nat) % 256 == bytes.last() as nat);
        assert(be_bytes(be_value(bytes), bytes.len()) =~= bytes);
    } else {
        assert(be_bytes(0, 0) =~= bytes);
    }
}

/// Eight bytes tell apart the values of a `u64`.
pub proof fn lemma_eight_bytes()
    ensures
        byte_range(8) == 0x1_0000_0000_0000_0000,
{
    reveal_with_fuel(byte_range, 9);
}

/// The width in bytes of a stored count, page number or document id.
pub const INTEGER_WIDTH: usize = 8;

fn encode_be(n: u64, width: usize) -> (bytes: Vec<u8>)
    ensures
        bytes@ == be_bytes(n as nat, width as nat),
    decreases width,
{
    if width == 0 {
        Vec::new()
    } else {
        let mut bytes = encode_be(n / 256, width - 1);
        bytes.push((n % 256) as u8);
        bytes
    }
}

/// Writes `n` on eight bytes, most significant byte first.
pub fn usize_encode(n: usize) -> (bytes: Vec<u8>)
    ensures
        bytes@ == be_bytes(n as nat, 8),
        bytes@.len() == 8,
        be_value(bytes@) == n,
{
    proof {
        lemma_eight_bytes();
        lemma_be_round_trip(n as nat, 8);
    }
    encode_be(n as u64, INTEGER_WIDTH)
}

fn decode_be(data: &[u8]) -> (value: u64)
    requires
        data@.len() == 8,
    ensures
        value == be_value(data@),
{
    let mut value: u64 = 0;
    let mut i: usize = 0;
    proof {
        assert(data@.take(0) =~= Seq::<u8>::empty());
        assert(byte_range(7) == 0x100_0000_0000_0000) by {
            reveal_with_fuel(byte_range, 8);
        }
    }
    while i < 8
        invariant
            i <= 8,
            data@.len() == 8,
            value == be_value(data@.take(i as int)),
            byte_range(7) == 0x100_0000_0000_0000,
        decreases 8 - i,
    {
        proof {
            assert(data@.take(i + 1).drop_last() =~= data@.take(i as int));
            lemma_be_bytes_of_value(data@.take(i as int));
            lemma_range_grows(i as nat, 7);
        }
        value = value * 256 + data[i] as u64;
        i += 1;
    }
    assert(data@.take(8) =~= data@);
    value
}

/// Reads a number from eight bytes, most significant byte first.
pub fn usize_decode(data: &[u8]) -> (n: usize)
    requires
        data@.len() == 8,
        be_value(data@) <= usize::MAX,
    ensures
        n == be_value(data@),
{
    decode_be(data) as usize
}

/// More bytes tell apart at least as many values.
pub proof fn lemma_range_grows(narrow: nat, wide: nat)
    requires
        narrow <= wide,
    ensures
        byte_range(narrow) <= byte_range(wide),
    decreases wide,
{
    if narrow < wide {
        lemma_range_grows(narrow, (wide - 1) as nat);
    }
}

/// The number that `data` stores: the value of its eight bytes, where it has eight and
/// the value fits the machine word.
pub open spec fn stored_usize(data: Seq<u8>) -> Option<usize> {
    if data.len() == 8 && be_value(data) <= usize::MAX {
        Some(be_value(data) as usize)
    } else {
        None
    }
}

/// Reads a stored number, if `data` stores one.
pub fn read_usize(data: &[u8]) -> (n: Option<usize>)
    ensures
        n == stored_usize(data@),
{
    if data.len() != INTEGER_WIDTH {
        return None;
    }
    let value = decode_be(data);
    if value > usize::MAX as u64 {
        None
    } else {
        Some(value as usize)
    }
}

/// Byte `k` of `word`, counted from the least significant.
pub open spec fn le_byte(word: u32, k: int) -> u8 {
    if k == 0 {
        (word % 256) as u8
    } else if k == 1 {
        (word / 256 % 256) as u8
    } else if k == 2 {
        (word / 65536 % 256) as u8
    } else {
        (word / 16777216) as u8
    }
}

/// The word that four bytes make, least significant byte first.
pub open spec fn le_word(b0: u8, b1: u8, b2: u8, b3: u8) -> u32 {
    (b0 + 256 * b1 + 65536 * b2 + 16777216 * b3) as u32
}

/// `words` as bytes: four bytes for each word, least significant byte first.
pub open spec fn le_bytes(words: Seq<u32>) -> Seq<u8> {
    Seq::new((4 * words.len()) as nat, |i: int| le_byte(words[i / 4], i % 4))
}

/// The words that `bytes` hold, four bytes each, least significant byte first. Bytes
/// that do not fill a word are left out.
pub open spec fn le_words(bytes: Seq<u8>) -> Seq<u32> {
    Seq::new(
        (bytes.len() / 4) as nat,
        |i: int| le_word(bytes[4 * i], bytes[4 * i + 1], bytes[4 * i + 2], bytes[4 * i + 3]),
    )
}

/// Words written as bytes and read back are the words.
pub proof fn lemma_le_round_trip(words: Seq<u32>)
    ensures
        le_words(le_bytes(words)) == words,
{
    assert(le_words(le_bytes(words)) =~= words);
}

/// `LittleEndian::write_u32_into` of `byteorder`: fills `dst` with the words of `src`,
/// four bytes each, least significant byte first. It panics unless `dst` has four bytes
/// for each word, which `requires` asks. Not proved: the layout of the bytes.
#[verifier::external_body]
fn write_u32_into(src: &Vec<u32>, dst: &mut Vec<u8>)
    requires
        old(dst)@.len() == 4 * src@.len(),
    ensures
        final(dst)@ == le_bytes(src@),
{
    LittleEndian::write_u32_into(src, dst);
}

/// `LittleEndian::read_u32_into` of `byteorder`: fills `dst` with the words that `src`
/// holds, four bytes each, least significant byte first. It panics unless `src` has
/// four bytes for each word of `dst`, which `requires` asks. Not proved: the value of
/// the words.
#[verifier::external_body]
fn read_u32_into(src: &[u8], dst: &mut Vec<u32>)
    requires
        src@.len() == 4 * old(dst)@.len(),
    ensures
        final(dst)@ == le_words(src@),
{
    LittleEndian::read_u32_into(src, dst);
}

/// Writes an embedding vector, given by the bit patterns of its components, as bytes:
/// four bytes for each component, least significant byte first.
pub fn vector_encode(vector: &Vec<u32>) -> (bytes: Vec<u8>)
    ensures
        bytes@ == le_bytes(vector@),
{
    let mut bytes: Vec<u8> = Vec::new();
    let mut i: usize = 0;
    while i < vector.len()
        invariant
            i <= vector.len(),
            bytes@.len() == 4 * i,
        decreases vector.len() - i,
    {
        bytes.push(0u8);
        bytes.push(0u8);
        bytes.push(0u8);
        bytes.push(0u8);
        i += 1;
    }
    write_u32_into(vector, &mut bytes);
    bytes
}

/// Reads an embedding vector from bytes: one component for each four bytes. Bytes that
/// do not fill a component are left out.
pub fn vector_decode(bytes: &[u8]) -> (vector: Vec<u32>)
    ensures
        vector@ == le_words(bytes@),
{
    let n: usize = bytes.len() / 4;
    let mut vector: Vec<u32> = vec![0u32; n];
    let whole = slice_subrange(bytes, 0, 4 * n);
    read_u32_into(whole, &mut vector);
    assert(le_words(whole@) =~= le_words(bytes@));
    vector
}

/// What `String::from_utf8_lossy` makes of `bytes`.
pub uninterp spec fn utf8_lossy(bytes: Seq<u8>) -> Seq<char>;

/// `String::from_utf8_lossy`: the text that `bytes` encode; a sequence that is not valid
/// UTF-8 is replaced by U+FFFD. Not proved: that valid UTF-8 is decoded as it stands.
#[verifier::external_body]
fn from_utf8_lossy(bytes: &[u8]) -> (text: String)
    ensures
        text@ == utf8_lossy(bytes@),
        valid_utf8(bytes@) ==> text@ == decode_utf8(bytes@),
{
    String::from_utf8_lossy(bytes).into_owned()
}

/// The text that stored bytes give: what they encode where they are valid UTF-8, and
/// else what a lossy conversion makes of them.
pub open spec fn decoded_text(bytes: Seq<u8>) -> Seq<char> {
    if valid_utf8(bytes) {
        decode_utf8(bytes)
    } else {
        utf8_lossy(bytes)
    }
}

/// Reads a stored text. Bytes that are not valid UTF-8 do not make it fail.
pub fn string_decode(bytes: &[u8]) -> (text: String)
    ensures
        text@ == decoded_text(bytes@),
{
    from_utf8_lossy(bytes)
}

/// Writes a text as its UTF-8 bytes.
pub fn string_encode(text: &str) -> (bytes: Vec<u8>)
    ensures
        bytes@ == encode_utf8(text@),
        decoded_text(bytes@) == text@,
{
    proof {
        vstd::utf8::encode_utf8_valid_utf8(text@);
        vstd::utf8::encode_utf8_decode_utf8(text@);
    }
    text.as_bytes_vec()
}

} // verus!
