//! 16-bit samples and their wire form: little-endian bytes in base64.
use vstd::prelude::*;
use base64::Engine;

verus! {

/// The nearest 16-bit sample: out of range, a sample clips.
pub open spec fn clipped(sample: int) -> i16 {
    if sample > i16::MAX {
        i16::MAX
    } else if sample < i16::MIN {
        i16::MIN
    } else {
        sample as i16
    }
}

/// Clips to 16 bits.
pub fn clip(sample: i32) -> (r: i16)
    ensures
        r == clipped(sample as int),
{
    if sample > 32_767 {
        i16::MAX
    } else if sample < -32_768 {
        i16::MIN
    } else {
        sample as i16
    }
}

/// The two's complement bits of a sample, as a number.
pub open spec fn sample_bits(sample: i16) -> int {
    if sample < 0 {
        sample + 0x1_0000
    } else {
        sample as int
    }
}

/// The bytes of the samples, the low byte of each first.
pub open spec fn pcm_bytes(samples: Seq<i16>) -> Seq<u8> {
    Seq::new(
        2 * samples.len(),
        |i: int|
            if i % 2 == 0 {
                (sample_bits(samples[i / 2]) % 256) as u8
            } else {
                (sample_bits(samples[i / 2]) / 256) as u8
            },
    )
}

/// The sample whose low and high byte these are.
pub open spec fn sample_of(low: u8, high: u8) -> i16 {
    let bits = low + 256 * high;
    if bits >= 0x8000 {
        (bits - 0x1_0000) as i16
    } else {
        bits as i16
    }
}

/// The samples in little-endian bytes; an odd last byte is dropped.
pub open spec fn pcm_samples(bytes: Seq<u8>) -> Seq<i16> {
    Seq::new(bytes.len() / 2, |i: int| sample_of(bytes[2 * i], bytes[2 * i + 1]))
}

/// The bytes of a block of samples give the samples back.
pub proof fn law_pcm_bytes_give_samples_back(samples: Seq<i16>)
    ensures
        pcm_samples(pcm_bytes(samples)) == samples,
{
    let bytes = pcm_bytes(samples);
    assert forall|i: int| 0 <= i < samples.len() implies sample_of(
        bytes[2 * i],
        bytes[2 * i + 1],
    ) == samples[i] by {
        assert((2 * i) / 2 == i && (2 * i) % 2 == 0);
        assert((2 * i + 1) / 2 == i && (2 * i + 1) % 2 == 1);
    }
    assert(pcm_samples(bytes) =~= samples);
}

/// Appends the bytes of one sample.
pub fn push_sample(bytes: &mut Vec<u8>, sample: i16)
    ensures
        final(bytes)@ == old(bytes)@.push((sample_bits(sample) % 256) as u8).push(
            (sample_bits(sample) / 256) as u8,
        ),
{
    let bits: u32 = if sample < 0 {
        (sample as i32 + 0x1_0000) as u32
    } else {
        sample as u32
    };
    bytes.push((bits % 256) as u8);
    bytes.push((bits / 256) as u8);
}

/// The base64 symbol of a six-bit value, in the standard alphabet.
pub open spec fn base64_symbol(value: int) -> char {
    if value < 26 {
        (value + 65) as char
    } else if value < 52 {
        (value - 26 + 97) as char
    } else if value < 62 {
        (value - 52 + 48) as char
    } else if value == 62 {
        '+'
    } else {
        '/'
    }
}

/// Byte `i`, or zero behind the end.
pub open spec fn octet(bytes: Seq<u8>, i: int) -> int {
    if i < bytes.len() {
        bytes[i] as int
    } else {
        0
    }
}

/// Six-bit value `i` of the bytes, three bytes to four values.
pub open spec fn sextet(bytes: Seq<u8>, i: int) -> int {
    let at = 3 * (i / 4);
    let group = octet(bytes, at) * 0x1_0000 + octet(bytes, at + 1) * 0x100 + octet(bytes, at + 2);
    if i % 4 == 0 {
        group / 0x4_0000
    } else if i % 4 == 1 {
        (group / 0x1000) % 64
    } else if i % 4 == 2 {
        (group / 64) % 64
    } else {
        group % 64
    }
}

/// The base64 text of the bytes (RFC 4648), in the standard alphabet and
/// padded to whole groups of four.
pub open spec fn base64_text(bytes: Seq<u8>) -> Seq<char> {
    Seq::new(
        4 * ((bytes.len() + 2) / 3),
        |i: int|
            if i % 4 <= bytes.len() - 3 * (i / 4) {
                base64_symbol(sextet(bytes, i))
            } else {
                '='
            },
    )
}

/// The value of a base64 symbol; padding counts as zero.
pub open spec fn symbol_value(symbol: char) -> int {
    if 'A' <= symbol && symbol <= 'Z' {
        symbol as int - 65
    } else if 'a' <= symbol && symbol <= 'z' {
        symbol as int - 97 + 26
    } else if '0' <= symbol && symbol <= '9' {
        symbol as int - 48 + 52
    } else if symbol == '+' {
        62
    } else if symbol == '/' {
        63
    } else {
        0
    }
}

/// How many of the last two symbols are padding.
pub open spec fn padding(text: Seq<char>) -> nat {
    if text.len() < 4 || text.last() != '=' {
        0
    } else if text[text.len() - 2] != '=' {
        1
    } else {
        2
    }
}

/// The bytes that a base64 text stands for.
pub open spec fn base64_octets(text: Seq<char>) -> Seq<u8> {
    Seq::new(
        (3 * (text.len() / 4) - padding(text)) as nat,
        |i: int|
            {
                let at = 4 * (i / 3);
                let group = symbol_value(text[at]) * 0x4_0000 + symbol_value(text[at + 1]) * 0x1000
                    + symbol_value(text[at + 2]) * 64 + symbol_value(text[at + 3]);
                if i % 3 == 0 {
                    (group / 0x1_0000) as u8
                } else if i % 3 == 1 {
                    ((group / 0x100) % 256) as u8
                } else {
                    (group % 256) as u8
                }
            },
    )
}

/// A symbol has the value that it was made of, and is no padding.
proof fn lemma_symbol_value(value: int)
    requires
        0 <= value < 64,
    ensures
        symbol_value(base64_symbol(value)) == value,
        base64_symbol(value) != '=',
{
}

/// A sextet is a six-bit value.
proof fn lemma_sextet_range(bytes: Seq<u8>, i: int)
    requires
        0 <= i,
    ensures
        0 <= sextet(bytes, i) < 64,
{
}

/// Symbol `j` of group `g` has the value of its sextet; padding stands only
/// for zero bits.
proof fn lemma_symbol_at(bytes: Seq<u8>, g: int, j: int)
    requires
        0 <= g,
        3 * g < bytes.len(),
        0 <= j < 4,
    ensures
        4 * g + j < base64_text(bytes).len(),
        symbol_value(base64_text(bytes)[4 * g + j]) == sextet(bytes, 4 * g + j),
        j <= bytes.len() - 3 * g <==> base64_text(bytes)[4 * g + j] != '=',
{
    assert((4 * g + j) / 4 == g && (4 * g + j) % 4 == j);
    lemma_sextet_range(bytes, 4 * g + j);
    lemma_symbol_value(sextet(bytes, 4 * g + j));
}

/// Four six-bit pieces make up a 24-bit group.
proof fn lemma_pieces(group: u32)
    requires
        group < 0x100_0000,
    ensures
        (group / 0x4_0000) * 0x4_0000 + ((group / 0x1000) % 64) * 0x1000 + ((group / 64) % 64) * 64
            + group % 64 == group,
{
    assert((group / 0x4_0000) * 0x4_0000 + ((group / 0x1000) % 64) * 0x1000 + ((group / 64) % 64)
        * 64 + group % 64 == group) by (bit_vector)
        requires
            group < 0x100_0000,
    ;
}

/// The value of the three bytes of group `g`.
spec fn group_value(bytes: Seq<u8>, g: int) -> int {
    octet(bytes, 3 * g) * 0x1_0000 + octet(bytes, 3 * g + 1) * 0x100 + octet(bytes, 3 * g + 2)
}

/// The value of the four symbols of group `g`.
spec fn symbols_value(text: Seq<char>, g: int) -> int {
    symbol_value(text[4 * g]) * 0x4_0000 + symbol_value(text[4 * g + 1]) * 0x1000 + symbol_value(
        text[4 * g + 2],
    ) * 64 + symbol_value(text[4 * g + 3])
}

/// A sextet is a piece of its group.
proof fn lemma_sextet_of_group(bytes: Seq<u8>, g: int)
    requires
        0 <= g,
    ensures
        sextet(bytes, 4 * g) == group_value(bytes, g) / 0x4_0000,
        sextet(bytes, 4 * g + 1) == (group_value(bytes, g) / 0x1000) % 64,
        sextet(bytes, 4 * g + 2) == (group_value(bytes, g) / 64) % 64,
        sextet(bytes, 4 * g + 3) == group_value(bytes, g) % 64,
        0 <= group_value(bytes, g) < 0x100_0000,
{
    assert((4 * g) / 4 == g && (4 * g) % 4 == 0);
    assert((4 * g + 1) / 4 == g && (4 * g + 1) % 4 == 1);
    assert((4 * g + 2) / 4 == g && (4 * g + 2) % 4 == 2);
    assert((4 * g + 3) / 4 == g && (4 * g + 3) % 4 == 3);
}

/// The four symbols of a group have the value of its three bytes.
proof fn lemma_symbols_value(bytes: Seq<u8>, g: int)
    requires
        0 <= g,
        3 * g < bytes.len(),
    ensures
        symbols_value(base64_text(bytes), g) == group_value(bytes, g),
{
    lemma_symbol_at(bytes, g, 0);
    lemma_symbol_at(bytes, g, 1);
    lemma_symbol_at(bytes, g, 2);
    lemma_symbol_at(bytes, g, 3);
    lemma_sextet_of_group(bytes, g);
    lemma_pieces(group_value(bytes, g) as u32);
}

/// Three bytes come out of the number that they make up.
proof fn lemma_bytes_of_group(a: u8, b: u8, c: u8)
    ensures
        ({
            let group = a * 0x1_0000 + b * 0x100 + c;
            &&& group / 0x1_0000 == a
            &&& (group / 0x100) % 256 == b
            &&& group % 256 == c
        }),
{
}

/// Three bytes come out of the four symbols that they went into.
proof fn lemma_octet_back(bytes: Seq<u8>, i: int)
    requires
        0 <= i < bytes.len(),
        base64_octets(base64_text(bytes)).len() == bytes.len(),
    ensures
        base64_octets(base64_text(bytes))[i] == bytes[i],
{
    let g = i / 3;
    let text = base64_text(bytes);
    lemma_symbols_value(bytes, g);
    lemma_bytes_of_group(
        octet(bytes, 3 * g) as u8,
        octet(bytes, 3 * g + 1) as u8,
        octet(bytes, 3 * g + 2) as u8,
    );
    assert(i == 3 * g || i == 3 * g + 1 || i == 3 * g + 2);
}

/// The base64 text of a block of bytes gives the bytes back.
pub proof fn law_base64_gives_bytes_back(bytes: Seq<u8>)
    ensures
        base64_octets(base64_text(bytes)) == bytes,
{
    let text = base64_text(bytes);
    let groups = (bytes.len() + 2) / 3;
    assert(text.len() == 4 * groups);
    if groups > 0 {
        lemma_symbol_at(bytes, groups - 1, 2);
        lemma_symbol_at(bytes, groups - 1, 3);
    }
    assert(padding(text) == 3 * groups - bytes.len());
    let octets = base64_octets(text);
    assert forall|i: int| 0 <= i < bytes.len() implies octets[i] == bytes[i] by {
        lemma_octet_back(bytes, i);
    }
    assert(octets =~= bytes);
}

/// `base64::Engine::encode_string` of the engine
/// `base64::engine::general_purpose::STANDARD`: writes the base64 text of
/// the bytes, in the standard alphabet and padded, behind what the string
/// holds. It is only called on an empty string.
#[verifier::external_body]
pub(crate) fn encode_base64(bytes: &Vec<u8>, text: &mut String)
    requires
        old(text)@.len() == 0,
        bytes@.len() <= isize::MAX / 2,
    ensures
        final(text)@ == base64_text(bytes@),
{
    base64::engine::general_purpose::STANDARD.encode_string(bytes, text);
}

/// Clipping keeps a sample that fits in 16 bits and gives the nearest end of
/// the range for any other.
pub proof fn law_clipping_keeps_what_fits(sample: i32, r: i16)
    requires
        call_ensures(clip, (sample,), r),
    ensures
        -32_768 <= sample <= 32_767 ==> r == sample,
        sample > 32_767 ==> r == 32_767,
        sample < -32_768 ==> r == -32_768,
{
}

/// Every sample appends two bytes, the low byte of its two's complement
/// first.
pub proof fn law_sample_becomes_two_bytes(bytes: &mut Vec<u8>, sample: i16)
    requires
        call_ensures(push_sample, (bytes, sample), ()),
    ensures
        final(bytes)@.len() == old(bytes)@.len() + 2,
        forall|i: int|
            0 <= i < old(bytes)@.len() ==> #[trigger] final(bytes)@[i] == old(bytes)@[i],
        final(bytes)@[old(bytes)@.len() as int] as int == sample as int % 256,
        final(bytes)@[old(bytes)@.len() as int + 1] as int == (sample as int / 256) % 256,
{
}

/// Base64, group by group: three bytes give four symbols of the standard
/// alphabet, six bits each, the highest first; where the last group has one
/// or two bytes, zero bits fill its last symbol, and `=` the group.
pub proof fn law_base64_group_by_group(bytes: Seq<u8>, g: int)
    requires
        0 <= g,
        3 * g < bytes.len(),
    ensures
        base64_text(bytes).len() == 4 * ((bytes.len() + 2) / 3),
        ({
            let alphabet = "ABCDEFGHIJKLMNOPQRSTUVWXYZabcdefghijklmnopqrstuvwxyz0123456789+/"@;
            let text = base64_text(bytes);
            let rest = bytes.len() - 3 * g;
            let a = bytes[3 * g] as int;
            let b = if rest > 1 {
                bytes[3 * g + 1] as int
            } else {
                0
            };
            let c = if rest > 2 {
                bytes[3 * g + 2] as int
            } else {
                0
            };
            &&& text[4 * g] == alphabet[a / 4]
            &&& text[4 * g + 1] == alphabet[(a % 4) * 16 + b / 16]
            &&& rest > 1 ==> text[4 * g + 2] == alphabet[(b % 16) * 4 + c / 64]
            &&& rest > 2 ==> text[4 * g + 3] == alphabet[c % 64]
            &&& rest == 1 ==> text[4 * g + 2] == '='
            &&& rest <= 2 ==> text[4 * g + 3] == '='
        }),
{
    let a = octet(bytes, 3 * g);
    let b = octet(bytes, 3 * g + 1);
    let c = octet(bytes, 3 * g + 2);
    lemma_sextet_of_group(bytes, g);
    lemma_sextets_of_bytes(a as u32, b as u32, c as u32);
    lemma_alphabet(a / 4);
    lemma_alphabet((a % 4) * 16 + b / 16);
    lemma_alphabet((b % 16) * 4 + c / 64);
    lemma_alphabet(c % 64);
    assert((4 * g) / 4 == g && (4 * g) % 4 == 0);
    assert((4 * g + 1) / 4 == g && (4 * g + 1) % 4 == 1);
    assert((4 * g + 2) / 4 == g && (4 * g + 2) % 4 == 2);
    assert((4 * g + 3) / 4 == g && (4 * g + 3) % 4 == 3);
}

/// The six-bit pieces of three bytes.
proof fn lemma_sextets_of_bytes(a: u32, b: u32, c: u32)
    requires
        a < 256,
        b < 256,
        c < 256,
    ensures
        ({
            let group = a * 0x1_0000 + b * 0x100 + c;
            &&& group / 0x4_0000 == a as int / 4
            &&& (group / 0x1000) % 64 == (a as int % 4) * 16 + b as int / 16
            &&& (group / 64) % 64 == (b as int % 16) * 4 + c as int / 64
            &&& group % 64 == c as int % 64
        }),
{
    let group: u32 = (a * 0x1_0000 + b * 0x100 + c) as u32;
    assert(group / 0x4_0000 == a / 4 && (group / 0x1000) % 64 == (a % 4) * 16 + b / 16 && (group
        / 64) % 64 == (b % 16) * 4 + c / 64 && group % 64 == c % 64) by (bit_vector)
        requires
            a < 256,
            b < 256,
            c < 256,
            group == a * 0x1_0000 + b * 0x100 + c,
    ;
}

/// A symbol stands at its place in the alphabet.
proof fn lemma_alphabet(value: int)
    requires
        0 <= value < 64,
    ensures
        base64_symbol(value)
            == "ABCDEFGHIJKLMNOPQRSTUVWXYZabcdefghijklmnopqrstuvwxyz0123456789+/"@[value],
{
    reveal_strlit("ABCDEFGHIJKLMNOPQRSTUVWXYZabcdefghijklmnopqrstuvwxyz0123456789+/");
}

} // verus!
