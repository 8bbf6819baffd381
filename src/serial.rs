use vstd::prelude::*;

verus! {

/// Big-endian bytes of a 16-bit value.
pub open spec fn be16(x: u16) -> Seq<u8> {
    seq![(x / 256) as u8, (x % 256) as u8]
}

/// The 16-bit value of two big-endian bytes.
pub open spec fn from_be16(hi: u8, lo: u8) -> u16 {
    (hi as int * 256 + lo as int) as u16
}

/// A value with a fixed on-wire encoding.
pub trait Serial {
    /// Whether the value can be encoded faithfully.
    spec fn encodable(&self) -> bool;

    /// The encoding.
    spec fn wire(&self) -> Seq<u8>;

    fn serialize(&self) -> (r: Vec<u8>)
        requires
            self.encodable(),
        ensures
            r@ == self.wire(),
    ;
}

/// Appends the big-endian bytes of `x`.
pub fn push_u16(bytes: &mut Vec<u8>, x: u16)
    ensures
        final(bytes)@ == old(bytes)@ + be16(x),
{
    bytes.push((x / 256) as u8);
    bytes.push((x % 256) as u8);
    proof {
        assert(final(bytes)@ =~= old(bytes)@ + be16(x));
    }
}

/// Reads a big-endian 16-bit value at `at`.
pub fn read_u16(bytes: &[u8], at: usize) -> (r: u16)
    requires
        at + 2 <= bytes@.len(),
    ensures
        r == from_be16(bytes@[at as int], bytes@[at + 1]),
{
    bytes[at] as u16 * 256 + bytes[at + 1] as u16
}

impl Serial for u16 {
    open spec fn encodable(&self) -> bool {
        true
    }

    open spec fn wire(&self) -> Seq<u8> {
        be16(*self)
    }

    fn serialize(&self) -> (r: Vec<u8>) {
        let mut v: Vec<u8> = Vec::new();
        push_u16(&mut v, *self);
        proof {
            assert(v@ =~= be16(*self));
        }
        v
    }
}

/// Copies `bytes[from..]`.
pub fn tail(bytes: &[u8], from: usize) -> (r: Vec<u8>)
    requires
        from <= bytes@.len(),
    ensures
        r@ == bytes@.subrange(from as int, bytes@.len() as int),
{
    let mut out: Vec<u8> = Vec::new();
    let mut i: usize = from;
    while i < bytes.len()
        invariant
            from <= i <= bytes@.len(),
            out@ == bytes@.subrange(from as int, i as int),
        decreases bytes@.len() - i,
    {
        out.push(bytes[i]);
        proof {
            assert(bytes@.subrange(from as int, i + 1) =~= bytes@.subrange(from as int, i as int).push(bytes@[i as int]));
        }
        i = i + 1;
    }
    out
}

/// Appends all of `src`.
pub fn append_bytes(dst: &mut Vec<u8>, src: &Vec<u8>)
    ensures
        final(dst)@ == old(dst)@ + src@,
{
    let mut i: usize = 0;
    while i < src.len()
        invariant
            0 <= i <= src@.len(),
            dst@ == old(dst)@ + src@.subrange(0, i as int),
        decreases src@.len() - i,
    {
        dst.push(src[i]);
        proof {
            assert(src@.subrange(0, i + 1) =~= src@.subrange(0, i as int).push(src@[i as int]));
            assert(old(dst)@ + src@.subrange(0, i + 1) =~= (old(dst)@ + src@.subrange(0, i as int)).push(src@[i as int]));
        }
        i = i + 1;
    }
    proof {
        assert(src@.subrange(0, src@.len() as int) =~= src@);
    }
}

} // verus!
