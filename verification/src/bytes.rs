//! Copying, comparing and framing byte strings.

use vstd::prelude::*;

verus! {

/// Whether two byte strings are equal.
pub fn slice_eq(a: &[u8], b: &[u8]) -> (equal: bool)
    ensures
        equal == (a@ == b@),
{
    if a.len() != b.len() {
        return false;
    }
    let mut i: usize = 0;
    while i < a.len()
        invariant
            i <= a.len(),
            a@.len() == b@.len(),
            forall|j: int| 0 <= j < i ==> a@[j] == b@[j],
        decreases a.len() - i,
    {
        if a[i] != b[i] {
            return false;
        }
        i += 1;
    }
    assert(a@ =~= b@);
    true
}

/// The array that holds the `N` bytes of `src`.
pub fn array_from_slice<const N: usize>(src: &[u8]) -> (out: [u8; N])
    requires
        src@.len() == N,
    ensures
        out@ == src@,
{
    let mut out = [0u8; N];
    let mut i: usize = 0;
    while i < N
        invariant
            i <= N,
            src@.len() == N,
            forall|j: int| 0 <= j < i ==> out@[j] == src@[j],
        decreases N - i,
    {
        out[i] = src[i];
        i += 1;
    }
    assert(out@ =~= src@);
    out
}

/// The bytes of `src` from `from` up to, not including, `to`.
pub fn subrange(src: &[u8], from: usize, to: usize) -> (out: Vec<u8>)
    requires
        from <= to <= src@.len(),
    ensures
        out@ == src@.subrange(from as int, to as int),
{
    let mut out: Vec<u8> = Vec::new();
    let mut i: usize = from;
    while i < to
        invariant
            from <= i <= to <= src@.len(),
            out@ == src@.subrange(from as int, i as int),
        decreases to - i,
    {
        out.push(src[i]);
        assert(out@ =~= src@.subrange(from as int, i + 1));
        i += 1;
    }
    out
}

/// The `index`-th piece of `bytes` cut into pieces of `size` bytes.
pub open spec fn chunk(bytes: Seq<u8>, size: int, index: int) -> Seq<u8> {
    bytes.subrange(index * size, (index + 1) * size)
}

/// Cuts `bytes` into pieces of `size` bytes, in order.
pub fn split_chunks(bytes: &[u8], size: usize) -> (pieces: Vec<Vec<u8>>)
    requires
        size > 0,
        bytes@.len() % size as nat == 0,
    ensures
        pieces@.len() == bytes@.len() / size as nat,
        forall|i: int|
            0 <= i < pieces@.len() ==> (#[trigger] pieces@[i])@ == chunk(bytes@, size as int, i),
        forall|i: int| 0 <= i < pieces@.len() ==> (#[trigger] pieces@[i])@.len() == size,
{
    let mut pieces: Vec<Vec<u8>> = Vec::new();
    let mut offset: usize = 0;
    let ghost len = bytes@.len() as int;
    let ghost count = len / size as int;
    proof {
        assert(len == count * size) by (nonlinear_arith)
            requires
                len % size as int == 0,
                count == len / size as int,
                size > 0,
        ;
        assert(0 == 0 * size) by (nonlinear_arith);
        assert(0 <= count) by (nonlinear_arith)
            requires
                len == count * size,
                len >= 0,
                size > 0,
        ;
    }
    while offset < bytes.len()
        invariant
            size > 0,
            len == bytes@.len(),
            len == count * size,
            offset == pieces@.len() * size,
            0 <= pieces@.len() <= count,
            forall|i: int|
                0 <= i < pieces@.len() ==> (#[trigger] pieces@[i])@ == chunk(
                    bytes@,
                    size as int,
                    i,
                ),
            forall|i: int| 0 <= i < pieces@.len() ==> (#[trigger] pieces@[i])@.len() == size,
        decreases bytes.len() - offset,
    {
        let ghost done = pieces@.len() as int;
        proof {
            assert(done < count && (done + 1) * size <= count * size && (done + 1) * size == done
                * size + size) by (nonlinear_arith)
                requires
                    done * size < count * size,
                    size > 0,
                    0 <= done <= count,
            ;
        }
        let piece = subrange(bytes, offset, offset + size);
        pieces.push(piece);
        offset += size;
    }
    proof {
        let done = pieces@.len() as int;
        assert(done == count) by (nonlinear_arith)
            requires
                done * size >= count * size,
                size > 0,
                0 <= done <= count,
        ;
    }
    pieces
}

/// The four bytes of `value`, most significant first.
pub open spec fn u32_be(value: u32) -> Seq<u8> {
    seq![
        (value / 0x100_0000) as u8,
        ((value / 0x1_0000) % 0x100) as u8,
        ((value / 0x100) % 0x100) as u8,
        (value % 0x100) as u8,
    ]
}

/// The number whose four bytes, most significant first, are `bytes`.
pub open spec fn u32_from_be(bytes: Seq<u8>) -> int {
    bytes[0] * 0x100_0000 + bytes[1] * 0x1_0000 + bytes[2] * 0x100 + bytes[3]
}

/// Reading back what [`u32_be`] wrote gives the number.
pub proof fn lemma_u32_be_round_trip(value: u32)
    ensures
        u32_be(value).len() == 4,
        u32_from_be(u32_be(value)) == value,
{
}

/// Writing what was read back from four bytes gives the four bytes.
pub proof fn lemma_u32_from_be_round_trip(bytes: Seq<u8>)
    requires
        bytes.len() == 4,
    ensures
        0 <= u32_from_be(bytes) <= u32::MAX,
        u32_be(u32_from_be(bytes) as u32) == bytes,
{
    let b0 = bytes[0] as int;
    let b1 = bytes[1] as int;
    let b2 = bytes[2] as int;
    let b3 = bytes[3] as int;
    let value = u32_from_be(bytes);
    vstd::arithmetic::div_mod::lemma_fundamental_div_mod_converse(
        value,
        0x100_0000,
        b0,
        b1 * 0x1_0000 + b2 * 0x100 + b3,
    );
    vstd::arithmetic::div_mod::lemma_fundamental_div_mod_converse(
        value,
        0x1_0000,
        b0 * 0x100 + b1,
        b2 * 0x100 + b3,
    );
    vstd::arithmetic::div_mod::lemma_fundamental_div_mod_converse(b0 * 0x100 + b1, 0x100, b0, b1);
    vstd::arithmetic::div_mod::lemma_fundamental_div_mod_converse(
        value,
        0x100,
        b0 * 0x1_0000 + b1 * 0x100 + b2,
        b3,
    );
    vstd::arithmetic::div_mod::lemma_fundamental_div_mod_converse(
        b0 * 0x1_0000 + b1 * 0x100 + b2,
        0x100,
        b0 * 0x100 + b1,
        b2,
    );
    assert(u32_be(value as u32) =~= bytes);
}

/// Writes `value` as four bytes, most significant first.
pub fn u32_to_be_bytes(value: u32) -> (out: [u8; 4])
    ensures
        out@ == u32_be(value),
{
    let out = [
        (value / 0x100_0000) as u8,
        ((value / 0x1_0000) % 0x100) as u8,
        ((value / 0x100) % 0x100) as u8,
        (value % 0x100) as u8,
    ];
    assert(out@ =~= u32_be(value));
    out
}

/// Reads four bytes, most significant first, at `at`.
pub fn u32_from_be_bytes(src: &[u8], at: usize) -> (value: u32)
    requires
        at + 4 <= src@.len(),
    ensures
        value == u32_from_be(src@.subrange(at as int, at + 4)),
{
    let b0: u32 = src[at] as u32;
    let b1: u32 = src[at + 1] as u32;
    let b2: u32 = src[at + 2] as u32;
    let b3: u32 = src[at + 3] as u32;
    b0 * 0x100_0000 + b1 * 0x1_0000 + b2 * 0x100 + b3
}

} // verus!
