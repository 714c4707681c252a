//! The fixed-width text encoding shared by training and inference.
//!
//! A line of text is lower-cased (ASCII letters only), right-aligned into a
//! field of `LINE_WIDTH` bytes padded with spaces, and truncated to the first
//! `LINE_WIDTH` bytes when longer.  Predicted bytes are masked to their low
//! seven bits before being read back as text.

use vstd::prelude::*;

verus! {

use vstd::string::StringSliceAdditionalSpecFns;

/// Width in bytes of one encoded line.
pub const LINE_WIDTH: usize = 100;

/// Number of input bits a network consumes: one bit per encoded-byte bit.
pub const NUM_INPUTS: usize = 800;

/// Number of output bits a network produces.
pub const NUM_OUTPUTS: usize = 800;

/// One training record: a line of text and the line that follows it.
pub struct TableEntry {
    pub initial_line: String,
    pub following_line: String,
}

/// ASCII lower-casing of one byte.
pub open spec fn lower_byte(b: u8) -> u8 {
    if 65 <= b && b <= 90 {
        (b + 32) as u8
    } else {
        b
    }
}

/// The encoding of a byte string: lower-cased, right-aligned in a
/// `LINE_WIDTH`-byte field of spaces, truncated to `LINE_WIDTH` bytes.
pub open spec fn encode_bytes(s: Seq<u8>) -> Seq<u8> {
    let low = s.map_values(|b: u8| lower_byte(b));
    if low.len() >= LINE_WIDTH {
        low.take(LINE_WIDTH as int)
    } else {
        Seq::new((LINE_WIDTH - low.len()) as nat, |i: int| 32u8) + low
    }
}

/// Lower-case one byte's ASCII letter, if it is one.
pub fn lower_byte_exec(b: u8) -> (r: u8)
    ensures
        r == lower_byte(b),
{
    if 65 <= b && b <= 90 {
        b + 32
    } else {
        b
    }
}

/// Encode one line of text into its fixed-width byte form.
#[verifier::loop_isolation(false)]
pub fn encode_line(text: &str) -> (r: Vec<u8>)
    ensures
        r@ == encode_bytes(text.spec_bytes()),
        r@.len() == LINE_WIDTH,
{
    let bytes = text.as_bytes();
    let n = bytes.len();
    let ghost low = text.spec_bytes().map_values(|b: u8| lower_byte(b));
    let mut out: Vec<u8> = Vec::new();
    if n < LINE_WIDTH {
        let pad = LINE_WIDTH - n;
        let mut i: usize = 0;
        while i < pad
            invariant
                i <= pad,
                out@ =~= Seq::new(i as nat, |k: int| 32u8),
            decreases pad - i,
        {
            out.push(32u8);
            i += 1;
        }
        let mut j: usize = 0;
        while j < n
            invariant
                j <= n,
                out@ =~= Seq::new(pad as nat, |k: int| 32u8) + low.take(j as int),
            decreases n - j,
        {
            out.push(lower_byte_exec(bytes[j]));
            assert(low.take(j + 1) =~= low.take(j as int).push(low[j as int]));
            j += 1;
        }
        assert(low.take(n as int) =~= low);
        assert(out@ =~= encode_bytes(text.spec_bytes()));
        out
    } else {
        let mut j: usize = 0;
        while j < LINE_WIDTH
            invariant
                j <= LINE_WIDTH,
                LINE_WIDTH <= n == text.spec_bytes().len(),
                out@ =~= low.take(j as int),
            decreases LINE_WIDTH - j,
        {
            out.push(lower_byte_exec(bytes[j]));
            assert(low.take(j + 1) =~= low.take(j as int).push(low[j as int]));
            j += 1;
        }
        assert(out@ =~= encode_bytes(text.spec_bytes()));
        out
    }
}

/// Encode both lines of a record into fixed-width byte form.
pub fn from_table_entry(entry: &TableEntry) -> (r: (Vec<u8>, Vec<u8>))
    ensures
        r.0@ == encode_bytes(vstd::utf8::encode_utf8(entry.initial_line@)),
        r.1@ == encode_bytes(vstd::utf8::encode_utf8(entry.following_line@)),
        r.0@.len() == LINE_WIDTH,
        r.1@.len() == LINE_WIDTH,
{
    let initial = encode_line(entry.initial_line.as_str());
    let following = encode_line(entry.following_line.as_str());
    (initial, following)
}

/// Encode a whole table of records.
#[verifier::loop_isolation(false)]
pub fn collection_from_file(table: &Vec<TableEntry>) -> (r: Vec<(Vec<u8>, Vec<u8>)>)
    ensures
        r@.len() == table@.len(),
        forall|i: int|
            0 <= i < table@.len() ==> {
                &&& (#[trigger] r@[i]).0@ == encode_bytes(
                    vstd::utf8::encode_utf8(table@[i].initial_line@),
                )
                &&& r@[i].1@ == encode_bytes(vstd::utf8::encode_utf8(table@[i].following_line@))
            },
{
    let mut out: Vec<(Vec<u8>, Vec<u8>)> = Vec::new();
    let mut i: usize = 0;
    while i < table.len()
        invariant
            i <= table@.len(),
            out@.len() == i,
            forall|k: int|
                0 <= k < i ==> {
                    &&& (#[trigger] out@[k]).0@ == encode_bytes(
                        vstd::utf8::encode_utf8(table@[k].initial_line@),
                    )
                    &&& out@[k].1@ == encode_bytes(
                        vstd::utf8::encode_utf8(table@[k].following_line@),
                    )
                },
        decreases table@.len() - i,
    {
        out.push(from_table_entry(&table[i]));
        i += 1;
    }
    out
}

/// Mask every byte to its low seven bits, forcing seven-bit ASCII.
#[verifier::loop_isolation(false)]
pub fn mask_to_ascii(bytes: &mut Vec<u8>)
    ensures
        final(bytes)@.len() == old(bytes)@.len(),
        forall|i: int| 0 <= i < final(bytes)@.len() ==> final(bytes)@[i] == (old(bytes)@[i] & 0x7f),
        forall|i: int| 0 <= i < final(bytes)@.len() ==> final(bytes)@[i] < 128,
{
    let n = bytes.len();
    let mut i: usize = 0;
    while i < n
        invariant
            i <= n,
            bytes@.len() == n == old(bytes)@.len(),
            forall|k: int| 0 <= k < i ==> bytes@[k] == (old(bytes)@[k] & 0x7f),
            forall|k: int| 0 <= k < i ==> bytes@[k] < 128,
            forall|k: int| i <= k < n ==> bytes@[k] == old(bytes)@[k],
        decreases n - i,
    {
        let b = bytes[i];
        assert((b & 0x7f) < 128) by (bit_vector);
        bytes.set(i, b & 0x7f);
        i += 1;
    }
}

/// Lower-casing a byte is idempotent.
proof fn lemma_lower_byte_idempotent(b: u8)
    ensures
        lower_byte(lower_byte(b)) == lower_byte(b),
{
}

/// Encoding is stable: encoding an already-encoded line changes nothing.
pub proof fn lemma_encode_idempotent(s: Seq<u8>)
    ensures
        encode_bytes(encode_bytes(s)) == encode_bytes(s),
{
    let e = encode_bytes(s);
    assert(e.len() == LINE_WIDTH);
    assert forall|i: int| 0 <= i < e.len() implies lower_byte(e[i]) == e[i] by {
        let low = s.map_values(|b: u8| lower_byte(b));
        if low.len() >= LINE_WIDTH {
            lemma_lower_byte_idempotent(s[i]);
        } else {
            if i >= LINE_WIDTH - low.len() {
                lemma_lower_byte_idempotent(s[i - (LINE_WIDTH - low.len())]);
            }
        }
    }
    assert(encode_bytes(e) =~= e.map_values(|b: u8| lower_byte(b)).take(LINE_WIDTH as int));
    assert(encode_bytes(e) =~= e);
}

} // verus!
