use vstd::prelude::*;

verus! {

/// The byte string that an optional byte vector holds, if any.
pub open spec fn opt_bytes(o: Option<Vec<u8>>) -> Option<Seq<u8>> {
    match o {
        Some(v) => Some(v@),
        None => None,
    }
}

/// The eight bytes of `x`, most significant first.
pub open spec fn be_bytes_u64(x: u64) -> Seq<u8> {
    seq![
        (x >> 56u64) as u8,
        (x >> 48u64) as u8,
        (x >> 40u64) as u8,
        (x >> 32u64) as u8,
        (x >> 24u64) as u8,
        (x >> 16u64) as u8,
        (x >> 8u64) as u8,
        x as u8,
    ]
}

/// The eight bytes of the two's complement form of `x`, most significant first.
pub open spec fn be_bytes_i64(x: i64) -> Seq<u8> {
    be_bytes_u64(x as u64)
}

/// The unsigned integer that the first eight bytes of `b` spell, most significant first.
pub open spec fn be_u64(b: Seq<u8>) -> u64
    recommends
        b.len() >= 8,
{
    (b[0] as u64) << 56u64 | (b[1] as u64) << 48u64 | (b[2] as u64) << 40u64 | (b[3] as u64)
        << 32u64 | (b[4] as u64) << 24u64 | (b[5] as u64) << 16u64 | (b[6] as u64) << 8u64
        | (b[7] as u64)
}

/// Reading back the eight bytes of `x` gives `x`.
pub proof fn lemma_be_u64_of_bytes(x: u64)
    ensures
        be_u64(be_bytes_u64(x)) == x,
{
    let b = be_bytes_u64(x);
    let (b0, b1, b2, b3, b4, b5, b6, b7) = (b[0], b[1], b[2], b[3], b[4], b[5], b[6], b[7]);
    assert(b0 == (x >> 56u64) as u8 && b1 == (x >> 48u64) as u8 && b2 == (x >> 40u64) as u8 && b3
        == (x >> 32u64) as u8 && b4 == (x >> 24u64) as u8 && b5 == (x >> 16u64) as u8 && b6 == (x
        >> 8u64) as u8 && b7 == x as u8);
    assert((((x >> 56u64) as u8) as u64) << 56u64 | (((x >> 48u64) as u8) as u64) << 48u64 | (((x
        >> 40u64) as u8) as u64) << 40u64 | (((x >> 32u64) as u8) as u64) << 32u64 | (((x
        >> 24u64) as u8) as u64) << 24u64 | (((x >> 16u64) as u8) as u64) << 16u64 | (((x
        >> 8u64) as u8) as u64) << 8u64 | ((x as u8) as u64) == x) by (bit_vector);
}

/// Writing out the integer that eight bytes spell gives the same bytes.
pub proof fn lemma_be_bytes_of_u64(b: Seq<u8>)
    requires
        b.len() == 8,
    ensures
        be_bytes_u64(be_u64(b)) == b,
{
    let (b0, b1, b2, b3, b4, b5, b6, b7) = (b[0], b[1], b[2], b[3], b[4], b[5], b[6], b[7]);
    let x: u64 = be_u64(b);
    assert(x == (b0 as u64) << 56u64 | (b1 as u64) << 48u64 | (b2 as u64) << 40u64 | (b3 as u64)
        << 32u64 | (b4 as u64) << 24u64 | (b5 as u64) << 16u64 | (b6 as u64) << 8u64 | (b7 as u64));
    assert((x >> 56u64) as u8 == b0 && (x >> 48u64) as u8 == b1 && (x >> 40u64) as u8 == b2 && (x
        >> 32u64) as u8 == b3 && (x >> 24u64) as u8 == b4 && (x >> 16u64) as u8 == b5 && (x
        >> 8u64) as u8 == b6 && x as u8 == b7) by (bit_vector)
        requires
            x == (b0 as u64) << 56u64 | (b1 as u64) << 48u64 | (b2 as u64) << 40u64 | (b3 as u64)
                << 32u64 | (b4 as u64) << 24u64 | (b5 as u64) << 16u64 | (b6 as u64) << 8u64
                | (b7 as u64),
    ;
    assert(be_bytes_u64(x) =~= b);
}

/// Writes `x` as eight bytes, most significant first.
pub fn u64_to_be_bytes(x: u64) -> (r: Vec<u8>)
    ensures
        r@ == be_bytes_u64(x),
{
    let r: Vec<u8> = vec![
        (x >> 56u64) as u8,
        (x >> 48u64) as u8,
        (x >> 40u64) as u8,
        (x >> 32u64) as u8,
        (x >> 24u64) as u8,
        (x >> 16u64) as u8,
        (x >> 8u64) as u8,
        x as u8,
    ];
    assert(r@ =~= be_bytes_u64(x));
    r
}

/// Writes the two's complement form of `x` as eight bytes, most significant first.
pub fn i64_to_be_bytes(x: i64) -> (r: Vec<u8>)
    ensures
        r@ == be_bytes_i64(x),
{
    u64_to_be_bytes(x as u64)
}

/// Reads an unsigned integer from the first eight bytes of `b`, most significant first.
pub fn u64_from_be_bytes(b: &[u8]) -> (r: u64)
    requires
        b@.len() >= 8,
    ensures
        r == be_u64(b@),
{
    (b[0] as u64) << 56u64 | (b[1] as u64) << 48u64 | (b[2] as u64) << 40u64 | (b[3] as u64)
        << 32u64 | (b[4] as u64) << 24u64 | (b[5] as u64) << 16u64 | (b[6] as u64) << 8u64
        | (b[7] as u64)
}

/// Appends every byte of `src` to `dst`.
pub fn extend_bytes(dst: &mut Vec<u8>, src: &[u8])
    ensures
        final(dst)@ == old(dst)@ + src@,
{
    let mut i: usize = 0;
    while i < src.len()
        invariant
            i <= src@.len(),
            dst@ == old(dst)@ + src@.subrange(0, i as int),
        decreases src@.len() - i,
    {
        dst.push(src[i]);
        i = i + 1;
        assert(dst@ =~= old(dst)@ + src@.subrange(0, i as int));
    }
    assert(src@.subrange(0, src@.len() as int) =~= src@);
}

/// The bytes of `b` from `start` up to, not including, `end`.
pub fn copy_range(b: &[u8], start: usize, end: usize) -> (r: Vec<u8>)
    requires
        start <= end <= b@.len(),
    ensures
        r@ == b@.subrange(start as int, end as int),
{
    let mut r: Vec<u8> = Vec::new();
    let mut i: usize = start;
    while i < end
        invariant
            start <= i <= end <= b@.len(),
            r@ == b@.subrange(start as int, i as int),
        decreases end - i,
    {
        r.push(b[i]);
        i = i + 1;
        assert(r@ =~= b@.subrange(start as int, i as int));
    }
    r
}

/// A copy of a byte vector.
pub fn clone_bytes(v: &Vec<u8>) -> (r: Vec<u8>)
    ensures
        r@ == v@,
{
    let r = copy_range(v.as_slice(), 0, v.len());
    assert(v@.subrange(0, v@.len() as int) =~= v@);
    r
}

/// Whether two byte strings are equal.
pub fn bytes_eq(a: &[u8], b: &[u8]) -> (r: bool)
    ensures
        r == (a@ == b@),
{
    if a.len() != b.len() {
        return false;
    }
    let mut i: usize = 0;
    while i < a.len()
        invariant
            a@.len() == b@.len(),
            i <= a@.len(),
            forall|j: int| 0 <= j < i ==> a@[j] == b@[j],
        decreases a@.len() - i,
    {
        if a[i] != b[i] {
            return false;
        }
        i = i + 1;
    }
    assert(a@ =~= b@);
    true
}

} // verus!
