//! The streaming CRC-32 primitive.
use vstd::prelude::*;
use vstd::string::{StrSliceExecFns, StringExecFns};

verus! {

/// The CRC-32 (IEEE) of a byte sequence, as `crc32fast` computes it.
pub uninterp spec fn crc32_of(bytes: Seq<u8>) -> u32;

/// The bytes that a `crc32fast::Hasher` has taken in since it was made.
pub uninterp spec fn hasher_input(h: crc32fast::Hasher) -> Seq<u8>;

#[verifier::external_type_specification]
#[verifier::external_body]
pub struct ExHasher(crc32fast::Hasher);

/// Relies on crc32fast::Hasher::new: a fresh hasher has taken in nothing.
#[verifier::external_body]
fn hasher_new() -> (h: crc32fast::Hasher)
    ensures
        hasher_input(h) == Seq::<u8>::empty(),
{
    crc32fast::Hasher::new()
}

/// Relies on crc32fast::Hasher::update: `buf` is appended to the input. The
/// hasher also adds the length of `buf` to a `u64` counter, which must not
/// overflow.
#[verifier::external_body]
fn hasher_update(h: &mut crc32fast::Hasher, buf: &[u8])
    requires
        hasher_input(*old(h)).len() + buf@.len() <= u64::MAX,
    ensures
        hasher_input(*final(h)) == hasher_input(*old(h)) + buf@,
{
    h.update(buf)
}

/// Relies on crc32fast::Hasher::finalize: the CRC-32 of the whole input,
/// which is the running state; a hasher from `new` starts at state 0, so
/// with no input the result is 0.
#[verifier::external_body]
fn hasher_finalize(h: crc32fast::Hasher) -> (r: u32)
    ensures
        r == crc32_of(hasher_input(h)),
        hasher_input(h).len() == 0 ==> r == 0,
{
    h.finalize()
}

/// Size of the pieces in which a buffer is fed to a checksum.
pub const CHUNK_SIZE: usize = 65536;

/// An in-progress checksum computation. Its view is the byte sequence fed
/// to it so far.
pub struct Checksum {
    hasher: crc32fast::Hasher,
}

impl View for Checksum {
    type V = Seq<u8>;

    closed spec fn view(&self) -> Seq<u8> {
        hasher_input(self.hasher)
    }
}

impl Checksum {
    /// A checksum that has been fed nothing.
    pub fn new() -> (r: Checksum)
        ensures
            r@ == Seq::<u8>::empty(),
    {
        Checksum { hasher: hasher_new() }
    }

    /// Appends `bytes` to the stream.
    pub fn update(&mut self, bytes: &[u8])
        requires
            old(self)@.len() + bytes@.len() <= u64::MAX,
        ensures
            final(self)@ == old(self)@ + bytes@,
    {
        hasher_update(&mut self.hasher, bytes);
    }

    /// The checksum of everything fed so far.
    pub fn finalize(self) -> (r: u32)
        ensures
            r == crc32_of(self@),
            self@.len() == 0 ==> r == 0,
    {
        hasher_finalize(self.hasher)
    }
}

/// The checksum of an in-memory buffer, fed in pieces of `CHUNK_SIZE`.
pub fn checksum_buffer(bytes: &[u8]) -> (r: u32)
    ensures
        r == crc32_of(bytes@),
        bytes@.len() == 0 ==> r == 0,
{
    let n = bytes.len();
    let mut sum = Checksum::new();
    let mut start: usize = 0;
    while start < n
        invariant
            n == bytes@.len(),
            start <= n,
            sum@ == bytes@.subrange(0, start as int),
        decreases n - start,
    {
        let end: usize = if n - start < CHUNK_SIZE {
            n
        } else {
            start + CHUNK_SIZE
        };
        let piece = vstd::slice::slice_subrange(bytes, start, end);
        sum.update(piece);
        assert(bytes@.subrange(0, start as int) + bytes@.subrange(start as int, end as int)
            =~= bytes@.subrange(0, end as int));
        start = end;
    }
    assert(bytes@.subrange(0, n as int) =~= bytes@);
    sum.finalize()
}

/// The bytes of a sequence of pieces, in order.
pub open spec fn joined(pieces: Seq<Vec<u8>>) -> Seq<u8> {
    pieces.map_values(|p: Vec<u8>| p@).flatten()
}

/// What a checksum that has been fed `acc` holds after each of `pieces` is
/// fed to it in turn.
pub open spec fn fed(acc: Seq<u8>, pieces: Seq<Seq<u8>>) -> Seq<u8>
    decreases pieces.len(),
{
    if pieces.len() == 0 {
        acc
    } else {
        fed(acc + pieces[0], pieces.drop_first())
    }
}

proof fn lemma_fed_appends(acc: Seq<u8>, pieces: Seq<Seq<u8>>)
    ensures
        fed(acc, pieces) == acc + pieces.flatten(),
    decreases pieces.len(),
{
    if pieces.len() > 0 {
        lemma_fed_appends(acc + pieces[0], pieces.drop_first());
        assert(acc + pieces[0] + pieces.drop_first().flatten() =~= acc + pieces.flatten());
    }
}

proof fn lemma_flatten_split(pieces: Seq<Seq<u8>>, k: int)
    requires
        0 <= k <= pieces.len(),
    ensures
        pieces.flatten() == pieces.take(k).flatten() + pieces.skip(k).flatten(),
    decreases pieces.len(),
{
    if k == 0 {
        assert(pieces.take(0).flatten() =~= Seq::<u8>::empty());
        assert(pieces.skip(0) =~= pieces);
        assert(pieces.flatten() =~= Seq::<u8>::empty() + pieces.flatten());
    } else {
        let rest = pieces.drop_first();
        lemma_flatten_split(rest, k - 1);
        assert(pieces.take(k).drop_first() =~= rest.take(k - 1));
        assert(pieces.take(k)[0] == pieces[0]);
        assert(pieces.skip(k) =~= rest.skip(k - 1));
        assert(pieces.flatten() =~= pieces.take(k).flatten() + pieces.skip(k).flatten());
    }
}

/// Splitting a stream into pieces does not change its checksum: feeding
/// the pieces in order, empty ones included, to a fresh checksum gives the
/// checksum of the whole stream.
pub proof fn lemma_chunking_is_invisible(whole: Seq<u8>, pieces: Seq<Seq<u8>>)
    requires
        pieces.flatten() == whole,
    ensures
        crc32_of(fed(Seq::<u8>::empty(), pieces)) == crc32_of(whole),
{
    lemma_fed_appends(Seq::<u8>::empty(), pieces);
    assert(Seq::<u8>::empty() + pieces.flatten() =~= whole);
}

/// The checksum of a stream given as consecutive pieces, fed in order.
pub fn checksum_chunks(pieces: &Vec<Vec<u8>>) -> (r: u32)
    requires
        joined(pieces@).len() <= u64::MAX,
    ensures
        r == crc32_of(joined(pieces@)),
        joined(pieces@).len() == 0 ==> r == 0,
{
    let ghost views = pieces@.map_values(|p: Vec<u8>| p@);
    let mut sum = Checksum::new();
    let mut i: usize = 0;
    proof {
        assert(views.take(0).flatten() =~= Seq::<u8>::empty());
    }
    while i < pieces.len()
        invariant
            views == pieces@.map_values(|p: Vec<u8>| p@),
            views.flatten().len() <= u64::MAX,
            i <= pieces@.len(),
            sum@ == views.take(i as int).flatten(),
        decreases pieces@.len() - i,
    {
        proof {
            lemma_flatten_split(views, i + 1);
            assert(views.take(i + 1) =~= views.take(i as int).push(views[i as int]));
            views.take(i as int).lemma_flatten_push(views[i as int]);
        }
        sum.update(pieces[i].as_slice());
        i = i + 1;
    }
    proof {
        assert(views.take(i as int) =~= views);
    }
    sum.finalize()
}

/// The digits of base sixteen, upper case.
pub open spec fn hex_digits() -> Seq<char> {
    "0123456789ABCDEF"@
}

/// The `k`-th of the eight base-sixteen digits of `v`, counted from the most
/// significant one.
pub open spec fn nibble(v: u32, k: int) -> u32 {
    (v >> ((28 - 4 * k) as u32)) & 15u32
}

/// `v` written as eight upper-case base-sixteen digits, leading zeros kept.
pub open spec fn hex8(v: u32) -> Seq<char> {
    Seq::new(8, |k: int| hex_digits()[nibble(v, k) as int])
}

/// A checksum as it is shown: eight upper-case base-sixteen digits.
pub fn checksum_hex(crc: u32) -> (r: String)
    ensures
        r@ == hex8(crc),
{
    let digits = "0123456789ABCDEF";
    proof {
        reveal_strlit("0123456789ABCDEF");
    }
    let mut out = String::new();
    let mut k: u32 = 0;
    while k < 8
        invariant
            k <= 8,
            digits@ == hex_digits(),
            digits.is_ascii(),
            digits@.len() == 16,
            out@ == hex8(crc).take(k as int),
        decreases 8 - k,
    {
        let shift: u32 = 28 - 4 * k;
        let d = (crc >> shift) & 15u32;
        assert(d < 16) by (bit_vector)
            requires
                d == (crc >> shift) & 15u32,
        ;
        let piece = digits.substring_ascii(d as usize, d as usize + 1);
        out.append(piece);
        proof {
            assert(d == nibble(crc, k as int));
            assert(hex8(crc).take(k + 1) =~= hex8(crc).take(k as int).push(hex_digits()[d as int]));
            assert(out@ =~= hex8(crc).take(k + 1));
        }
        k = k + 1;
    }
    proof {
        assert(hex8(crc).take(8) =~= hex8(crc));
    }
    out
}

} // verus!
