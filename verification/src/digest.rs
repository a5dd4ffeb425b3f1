//! Streaming content digest: a file's bytes are fed to an md5 accumulator
//! in fixed-size chunks, and the finished 128-bit digest can be rendered as
//! lowercase hexadecimal.
//!
//! The md5 computation itself is done by the `md5` crate behind trusted
//! wrappers; what is verified here is the streaming: consuming a byte string
//! chunk by chunk digests exactly that byte string, whatever its length.

use vstd::prelude::*;
use vstd::slice::slice_subrange;

use crate::record::FileRecord;

verus! {

/// How many bytes are fed to the digest accumulator at a time.
pub const CHUNK_SIZE: usize = 1024;

#[verifier::external_type_specification]
#[verifier::external_body]
pub struct ExContext(md5::Context);

/// The byte stream an md5 accumulator has consumed so far.
pub uninterp spec fn consumed(c: md5::Context) -> Seq<u8>;

/// The 16-byte md5 digest of a byte string.
pub uninterp spec fn md5_of(bytes: Seq<u8>) -> Seq<u8>;

/// Relies on md5::Context::new: a fresh accumulator has consumed nothing.
#[verifier::external_body]
fn context_new() -> (c: md5::Context)
    ensures
        consumed(c) == Seq::<u8>::empty(),
{
    md5::Context::new()
}

/// Relies on md5::Context::consume: it appends `data` to the stream the
/// accumulator has consumed.
#[verifier::external_body]
fn context_consume(c: &mut md5::Context, data: &[u8])
    ensures
        consumed(*final(c)) == consumed(*old(c)) + data@,
{
    c.consume(data)
}

/// Relies on md5::Context::finalize: the digest is 16 bytes and depends on
/// the consumed stream alone.
#[verifier::external_body]
fn context_finalize(c: md5::Context) -> (r: Vec<u8>)
    ensures
        r@ == md5_of(consumed(c)),
        r@.len() == 16,
{
    c.finalize().0.to_vec()
}

/// The digest of `data`, computed by feeding the accumulator chunks of at
/// most `CHUNK_SIZE` bytes; the final chunk may be shorter.
pub fn md5_digest(data: &[u8]) -> (r: Vec<u8>)
    ensures
        r@ == md5_of(data@),
        r@.len() == 16,
{
    let mut context = context_new();
    proof {
        assert(data@.subrange(0, 0) =~= Seq::<u8>::empty());
    }
    let mut i: usize = 0;
    while i < data.len()
        invariant
            0 <= i <= data@.len(),
            consumed(context) == data@.subrange(0, i as int),
        decreases data@.len() - i,
    {
        let end: usize = if data.len() - i < CHUNK_SIZE {
            data.len()
        } else {
            i + CHUNK_SIZE
        };
        let chunk = slice_subrange(data, i, end);
        context_consume(&mut context, chunk);
        proof {
            assert(data@.subrange(0, i as int) + data@.subrange(i as int, end as int)
                =~= data@.subrange(0, end as int));
        }
        i = end;
    }
    proof {
        assert(data@.subrange(0, data@.len() as int) =~= data@);
    }
    context_finalize(context)
}

/// The lowercase hexadecimal digit for `d < 16`.
pub open spec fn hex_digit(d: nat) -> char {
    if d < 10 {
        ((d + 48) as u8) as char
    } else {
        ((d + 87) as u8) as char
    }
}

/// Lowercase hexadecimal: two digits per byte, most significant digit
/// first.
pub open spec fn hex_of(s: Seq<u8>) -> Seq<char>
    decreases s.len(),
{
    if s.len() == 0 {
        Seq::empty()
    } else {
        hex_of(s.drop_last()) + seq![
            hex_digit((s.last() / 16) as nat),
            hex_digit((s.last() % 16) as nat),
        ]
    }
}

/// Relies on data_encoding::HEXLOWER.encode: it renders each byte as two
/// lowercase hexadecimal digits, most significant first.
#[verifier::external_body]
fn hex_lower(bytes: &[u8]) -> (r: String)
    ensures
        r@ == hex_of(bytes@),
{
    data_encoding::HEXLOWER.encode(bytes)
}

/// The digest of `data`, rendered as 32 lowercase hexadecimal digits.
pub fn md5_digest_hex(data: &[u8]) -> (r: String)
    ensures
        r@ == hex_of(md5_of(data@)),
{
    let digest = md5_digest(data);
    hex_lower(digest.as_slice())
}

/// The digest is a function of the content alone: hashing equal byte
/// strings yields equal digests, however often it is recomputed.
pub proof fn lemma_digest_deterministic(a: Seq<u8>, b: Seq<u8>)
    requires
        a == b,
    ensures
        md5_of(a) == md5_of(b),
{
}

impl FileRecord {
    /// Fills in this record's digest from the file content `data`; the
    /// other fields are untouched.
    pub fn fill_digest(&mut self, data: &[u8])
        ensures
            final(self).digest@ == hex_of(md5_of(data@)),
            final(self).name == old(self).name,
            final(self).path == old(self).path,
            final(self).size == old(self).size,
    {
        self.digest = md5_digest_hex(data);
    }
}

} // verus!
