//! The text payloads that carry binary data across the front-end boundary:
//! a table of 32-bit words is sent as its little-endian bytes in standard,
//! padded base64, and images come back in the same alphabet.
use vstd::prelude::*;
use base64::Engine;

verus! {

/// Byte `j` (0 least significant) of the little-endian form of `w`.
pub open spec fn le_byte(w: u32, j: int) -> u8 {
    if j == 0 {
        (w % 0x100) as u8
    } else if j == 1 {
        ((w / 0x100) % 0x100) as u8
    } else if j == 2 {
        ((w / 0x10000) % 0x100) as u8
    } else {
        (w / 0x1000000) as u8
    }
}

/// The words of `words`, each as its four little-endian bytes, in order.
pub open spec fn le_bytes(words: Seq<u32>) -> Seq<u8> {
    Seq::new(4 * words.len(), |k: int| le_byte(words[k / 4], k % 4))
}

/// Symbol for the 6-bit value `v` in the standard base64 alphabet
/// (`A`-`Z`, `a`-`z`, `0`-`9`, `+`, `/`).
pub open spec fn base64_symbol(v: int) -> char {
    if v < 26 {
        (65 + v) as char
    } else if v < 52 {
        (97 + (v - 26)) as char
    } else if v < 62 {
        (48 + (v - 52)) as char
    } else if v == 62 {
        '+'
    } else {
        '/'
    }
}

/// Standard base64 with `=` padding: each group of three bytes becomes four
/// symbols; a last group of one or two bytes is padded to four symbols.
pub open spec fn base64_encode(b: Seq<u8>) -> Seq<char>
    decreases b.len(),
{
    if b.len() == 0 {
        seq![]
    } else if b.len() == 1 {
        seq![base64_symbol(b[0] as int / 4), base64_symbol((b[0] as int % 4) * 16), '=', '=']
    } else if b.len() == 2 {
        seq![
            base64_symbol(b[0] as int / 4),
            base64_symbol((b[0] as int % 4) * 16 + b[1] as int / 16),
            base64_symbol((b[1] as int % 16) * 4),
            '=',
        ]
    } else {
        seq![
            base64_symbol(b[0] as int / 4),
            base64_symbol((b[0] as int % 4) * 16 + b[1] as int / 16),
            base64_symbol((b[1] as int % 16) * 4 + b[2] as int / 64),
            base64_symbol(b[2] as int % 64),
        ] + base64_encode(b.subrange(3, b.len() as int))
    }
}

/// Number of symbols of the padded base64 form of `n` bytes.
pub open spec fn base64_len(n: int) -> int {
    4 * ((n + 2) / 3)
}

/// The message (the `Display` of its `DecodeError`) with which the standard
/// base64 engine of the `base64` crate rejects `text`.
pub uninterp spec fn base64_decode_message(text: Seq<char>) -> Seq<char>;

/// Whether `text` is the padded standard base64 form of some bytes.
pub open spec fn is_base64(text: Seq<char>) -> bool {
    exists|b: Seq<u8>| #[trigger] base64_encode(b) == text
}

/// Calls `base64::engine::general_purpose::STANDARD.encode`. Trusted to
/// produce the padded standard base64 form of `bytes`; it panics only where
/// the length of that form overflows `usize`, which `requires` leaves out.
#[verifier::external_body]
fn base64_standard_encode(bytes: &[u8]) -> (text: String)
    requires
        base64_len(bytes@.len() as int) <= usize::MAX,
    ensures
        text@ == base64_encode(bytes@),
{
    base64::engine::general_purpose::STANDARD.encode(bytes)
}

/// Calls `base64::engine::general_purpose::STANDARD.decode` on the UTF-8
/// bytes of `text`, turning its error into its message. Trusted to accept
/// exactly the padded standard forms: the engine requires canonical padding
/// and zero trailing bits, so what it decodes re-encodes to `text`, and the
/// form of any `b` decodes to `b`. A refusal carries
/// `base64_decode_message(text)`.
#[verifier::external_body]
fn base64_standard_decode(text: &str) -> (res: Result<Vec<u8>, String>)
    ensures
        res matches Ok(v) ==> base64_encode(v@) == text@,
        forall|b: Seq<u8>| #[trigger] base64_encode(b) == text@ ==> res is Ok && res.unwrap()@ == b,
        res matches Err(e) ==> e@ == base64_decode_message(text@),
{
    match base64::engine::general_purpose::STANDARD.decode(text) {
        Ok(v) => Ok(v),
        Err(e) => Err(e.to_string()),
    }
}

/// The little-endian bytes of `words`, four per word, in order.
pub fn words_to_le_bytes(words: &[u32]) -> (out: Vec<u8>)
    ensures
        out@ == le_bytes(words@),
{
    let mut out: Vec<u8> = Vec::new();
    let mut i: usize = 0;
    while i < words.len()
        invariant
            i <= words@.len(),
            out@ == le_bytes(words@.subrange(0, i as int)),
        decreases words@.len() - i,
    {
        let w = words[i];
        let b0 = (w & 0xff) as u8;
        let b1 = ((w >> 8) & 0xff) as u8;
        let b2 = ((w >> 16) & 0xff) as u8;
        let b3 = (w >> 24) as u8;
        proof {
            assert(w & 0xff == w % 0x100) by (bit_vector);
            assert((w >> 8) & 0xff == (w / 0x100) % 0x100) by (bit_vector);
            assert((w >> 16) & 0xff == (w / 0x10000) % 0x100) by (bit_vector);
            assert(w >> 24 == w / 0x1000000) by (bit_vector);
        }
        let ghost before = out@;
        out.push(b0);
        out.push(b1);
        out.push(b2);
        out.push(b3);
        proof {
            let next = words@.subrange(0, i + 1);
            assert forall|k: int| 0 <= k < 4 * (i + 1) implies out@[k] == le_byte(
                next[k / 4],
                k % 4,
            ) by {
                if k < 4 * i {
                    assert(out@[k] == before[k]);
                    assert(words@.subrange(0, i as int)[k / 4] == next[k / 4]);
                } else {
                    assert(k / 4 == i);
                }
            }
            assert(out@ =~= le_bytes(next));
        }
        i = i + 1;
    }
    assert(words@.subrange(0, words@.len() as int) =~= words@);
    out
}

/// The table payload: the little-endian bytes of `words` in standard,
/// padded base64.
pub fn encode_table(words: &[u32]) -> (text: String)
    requires
        base64_len(4 * words@.len() as int) <= usize::MAX,
    ensures
        text@ == base64_encode(le_bytes(words@)),
        text@.len() == base64_len(4 * words@.len() as int),
        text@.len() == 4 * ((4 * words@.len() + 2) / 3),
{
    let bytes = words_to_le_bytes(words);
    proof {
        lemma_base64_encode_len(bytes@);
    }
    base64_standard_encode(bytes.as_slice())
}

/// The bytes that the standard base64 text `data` stands for, or the
/// decoder's message where `data` is not valid standard base64.
pub fn decode_payload(data: &str) -> (res: Result<Vec<u8>, String>)
    ensures
        res is Ok <==> is_base64(data@),
        res matches Ok(v) ==> base64_encode(v@) == data@,
        forall|b: Seq<u8>| #[trigger] base64_encode(b) == data@ ==> res is Ok && res.unwrap()@ == b,
        res matches Err(e) ==> e@ == base64_decode_message(data@),
{
    let res = base64_standard_decode(data);
    proof {
        if res is Ok {
            assert(base64_encode(res.unwrap()@) == data@);
        }
    }
    res
}

/// Whether a table of `count` words can be sent as a payload: its base64
/// form has a length that fits in `usize`.
pub fn table_payload_fits(count: usize) -> (res: bool)
    ensures
        res == (base64_len(4 * count as int) <= usize::MAX),
        res == (4 * ((4 * count + 2) / 3) <= usize::MAX),
{
    let bytes = match count.checked_mul(4) {
        Some(n) => n,
        None => return false,
    };
    let padded = match bytes.checked_add(2) {
        Some(n) => n,
        None => return false,
    };
    (padded / 3).checked_mul(4).is_some()
}

/// The padded base64 form of `n` bytes has `4 * ceil(n / 3)` symbols.
pub proof fn lemma_base64_encode_len(b: Seq<u8>)
    ensures
        base64_encode(b).len() == base64_len(b.len() as int),
    decreases b.len(),
{
    if b.len() >= 3 {
        lemma_base64_encode_len(b.subrange(3, b.len() as int));
    }
}

/// Encoding works group by group: bytes split after a whole number of
/// three-byte groups encode to the two encodings one after the other.
pub proof fn lemma_base64_encode_concat(x: Seq<u8>, y: Seq<u8>)
    requires
        x.len() % 3 == 0,
    ensures
        base64_encode(x + y) == base64_encode(x) + base64_encode(y),
    decreases x.len(),
{
    if x.len() == 0 {
        assert(x + y =~= y);
        assert(base64_encode(x) + base64_encode(y) =~= base64_encode(y));
    } else {
        let t = x.subrange(3, x.len() as int);
        lemma_base64_encode_concat(t, y);
        assert((x + y).subrange(3, (x + y).len() as int) =~= t + y);
        assert((x + y)[0] == x[0] && (x + y)[1] == x[1] && (x + y)[2] == x[2]);
        let g = base64_encode(x).subrange(0, 4);
        assert(base64_encode(x) =~= g + base64_encode(t));
        assert(base64_encode(x + y) =~= g + base64_encode(t + y));
        assert(g + (base64_encode(t) + base64_encode(y)) =~= (g + base64_encode(t))
            + base64_encode(y));
    }
}

/// Distinct 6-bit values have distinct symbols, none of which is `=`.
proof fn lemma_base64_symbol_injective(a: int, b: int)
    requires
        0 <= a < 64,
        0 <= b < 64,
    ensures
        base64_symbol(a) != '=',
        base64_symbol(a) == base64_symbol(b) ==> a == b,
{
}

/// The first group of four symbols of a padded base64 form decides the
/// first three bytes (or the one or two bytes of a last, short group).
proof fn lemma_base64_first_group(x: Seq<u8>, y: Seq<u8>)
    requires
        x.len() > 0,
        y.len() > 0,
        base64_encode(x).subrange(0, 4) == base64_encode(y).subrange(0, 4),
    ensures
        (x.len() >= 3) == (y.len() >= 3),
        x.len() < 3 ==> x == y,
        x.len() >= 3 ==> x.subrange(0, 3) == y.subrange(0, 3),
{
    let ex = base64_encode(x);
    let ey = base64_encode(y);
    lemma_base64_encode_len(x);
    lemma_base64_encode_len(y);
    assert(ex[0] == ey[0] && ex[1] == ey[1] && ex[2] == ey[2] && ex[3] == ey[3]) by {
        assert(ex.subrange(0, 4)[0] == ey.subrange(0, 4)[0]);
        assert(ex.subrange(0, 4)[1] == ey.subrange(0, 4)[1]);
        assert(ex.subrange(0, 4)[2] == ey.subrange(0, 4)[2]);
        assert(ex.subrange(0, 4)[3] == ey.subrange(0, 4)[3]);
    }
    let (x0, y0) = (x[0] as int, y[0] as int);
    lemma_base64_symbol_injective(x0 / 4, y0 / 4);
    if x.len() >= 2 && y.len() >= 2 {
        let (x1, y1) = (x[1] as int, y[1] as int);
        lemma_base64_symbol_injective((x0 % 4) * 16 + x1 / 16, (y0 % 4) * 16 + y1 / 16);
        if x.len() >= 3 && y.len() >= 3 {
            let (x2, y2) = (x[2] as int, y[2] as int);
            lemma_base64_symbol_injective((x1 % 16) * 4 + x2 / 64, (y1 % 16) * 4 + y2 / 64);
            lemma_base64_symbol_injective(x2 % 64, y2 % 64);
            assert(x.subrange(0, 3) =~= y.subrange(0, 3));
        } else {
            lemma_base64_symbol_injective((x1 % 16) * 4 + (if x.len() >= 3 { x[2] as int / 64 } else { 0 }), (y1 % 16) * 4 + (if y.len() >= 3 { y[2] as int / 64 } else { 0 }));
            if x.len() >= 3 {
                lemma_base64_symbol_injective(x[2] as int % 64, 0);
            }
            if y.len() >= 3 {
                lemma_base64_symbol_injective(y[2] as int % 64, 0);
            }
            if x.len() == 2 && y.len() == 2 {
                assert(x =~= y);
            }
        }
    } else {
        if x.len() >= 2 {
            lemma_base64_symbol_injective((x0 % 4) * 16 + x[1] as int / 16, 0);
            lemma_base64_symbol_injective((x[1] as int % 16) * 4 + (if x.len() >= 3 { x[2] as int / 64 } else { 0 }), 0);
        }
        if y.len() >= 2 {
            lemma_base64_symbol_injective((y0 % 4) * 16 + y[1] as int / 16, 0);
            lemma_base64_symbol_injective((y[1] as int % 16) * 4 + (if y.len() >= 3 { y[2] as int / 64 } else { 0 }), 0);
        }
        if x.len() == 1 && y.len() == 1 {
            lemma_base64_symbol_injective((x0 % 4) * 16, (y0 % 4) * 16);
            assert(x =~= y);
        }
    }
}

/// Distinct byte strings have distinct padded base64 forms, so a payload
/// text decides its bytes.
pub proof fn lemma_base64_encode_injective(x: Seq<u8>, y: Seq<u8>)
    requires
        base64_encode(x) == base64_encode(y),
    ensures
        x == y,
    decreases x.len(),
{
    lemma_base64_encode_len(x);
    lemma_base64_encode_len(y);
    if x.len() == 0 || y.len() == 0 {
        if x.len() != 0 || y.len() != 0 {
            assert(base64_len(x.len() as int) == base64_len(y.len() as int));
        }
        assert(x =~= y);
    } else {
        lemma_base64_first_group(x, y);
        if x.len() >= 3 {
            let (tx, ty) = (x.subrange(3, x.len() as int), y.subrange(3, y.len() as int));
            let (hx, hy) = (base64_encode(x).subrange(0, 4), base64_encode(y).subrange(0, 4));
            assert(base64_encode(x) =~= hx + base64_encode(tx));
            assert(base64_encode(y) =~= hy + base64_encode(ty));
            assert(base64_encode(tx) =~= base64_encode(x).subrange(4, base64_encode(x).len() as int));
            assert(base64_encode(ty) =~= base64_encode(y).subrange(4, base64_encode(y).len() as int));
            lemma_base64_encode_injective(tx, ty);
            assert(x =~= x.subrange(0, 3) + tx);
            assert(y =~= y.subrange(0, 3) + ty);
        }
    }
}

/// Whatever decodes from a table payload is the table's little-endian
/// bytes: four per word, each group of four reassembling to its word.
pub proof fn lemma_table_payload_decodes(words: Seq<u32>, decoded: Seq<u8>)
    requires
        base64_encode(decoded) == base64_encode(le_bytes(words)),
    ensures
        decoded == le_bytes(words),
        decoded.len() == 4 * words.len(),
        forall|j: int|
            0 <= j < words.len() ==> #[trigger] words[j] == decoded[4 * j] + 0x100 * decoded[4
                * j + 1] + 0x10000 * decoded[4 * j + 2] + 0x1000000 * decoded[4 * j + 3],
{
    lemma_base64_encode_injective(decoded, le_bytes(words));
    lemma_le_bytes_words(words);
}

/// The four little-endian bytes of a word put back together give the word.
pub proof fn lemma_le_bytes_reassemble(w: u32)
    ensures
        w == le_byte(w, 0) + 0x100 * le_byte(w, 1) + 0x10000 * le_byte(w, 2) + 0x1000000
            * le_byte(w, 3),
{
    assert(w == (w % 0x100) as u8 + 0x100 * ((w / 0x100) % 0x100) as u8 + 0x10000 * ((w
        / 0x10000) % 0x100) as u8 + 0x1000000 * (w / 0x1000000) as u8) by (bit_vector);
}

/// The bytes of a table payload come four per word, and each group of four,
/// put back together little-endian, is its word.
pub proof fn lemma_le_bytes_words(words: Seq<u32>)
    ensures
        le_bytes(words).len() == 4 * words.len(),
        forall|j: int|
            0 <= j < words.len() ==> {
                let b = le_bytes(words);
                #[trigger] words[j] == b[4 * j] + 0x100 * b[4 * j + 1] + 0x10000 * b[4 * j + 2]
                    + 0x1000000 * b[4 * j + 3]
            },
{
    assert forall|j: int| 0 <= j < words.len() implies {
        let b = le_bytes(words);
        #[trigger] words[j] == b[4 * j] + 0x100 * b[4 * j + 1] + 0x10000 * b[4 * j + 2]
            + 0x1000000 * b[4 * j + 3]
    } by {
        lemma_le_bytes_reassemble(words[j]);
        assert((4 * j + 1) / 4 == j && (4 * j + 1) % 4 == 1);
        assert((4 * j + 2) / 4 == j && (4 * j + 2) % 4 == 2);
        assert((4 * j + 3) / 4 == j && (4 * j + 3) % 4 == 3);
    }
}

} // verus!
