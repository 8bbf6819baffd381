use vstd::prelude::*;
use crate::serial::{be16, from_be16, push_u16, read_u16, tail, append_bytes, Serial};
use crate::utils::{MessageNumber, SequenceNumber};
use crate::huffman::{codebook, decode_n, parse_tree, unpacked, Bitter, Tree};

verus! {

/// Where a fragment stands in its message.
#[derive(Copy, Clone, Debug, PartialEq, Eq, Structural)]
pub enum DataPacketType {
    Solo,
    First,
    Last,
    Middle,
}

/// A data packet: one fragment of an application message.
#[derive(Clone, Debug)]
pub struct DataPacket {
    pub seq_no: SequenceNumber,
    pub msg_no: MessageNumber,
    pub element: DataPacketType,
    pub order: bool,
    pub stamp: u16,
    pub dst_socket_id: u16,
    pub data: Vec<u8>,
}

/// The mathematical value of a data packet.
pub struct DataPacketView {
    pub seq_no: SequenceNumber,
    pub msg_no: MessageNumber,
    pub element: DataPacketType,
    pub order: bool,
    pub stamp: u16,
    pub dst_socket_id: u16,
    pub data: Seq<u8>,
}

impl View for DataPacket {
    type V = DataPacketView;

    open spec fn view(&self) -> DataPacketView {
        DataPacketView {
            seq_no: self.seq_no,
            msg_no: self.msg_no,
            element: self.element,
            order: self.order,
            stamp: self.stamp,
            dst_socket_id: self.dst_socket_id,
            data: self.data@,
        }
    }
}

/// The two flag bits that encode an element.
pub open spec fn elem_bits(e: DataPacketType) -> int {
    match e {
        DataPacketType::Solo => 3,
        DataPacketType::First => 2,
        DataPacketType::Last => 1,
        DataPacketType::Middle => 0,
    }
}

pub open spec fn elem_of(bits: int) -> DataPacketType {
    if bits == 3 {
        DataPacketType::Solo
    } else if bits == 2 {
        DataPacketType::First
    } else if bits == 1 {
        DataPacketType::Last
    } else {
        DataPacketType::Middle
    }
}

/// The second header word: element in the top two bits, then the ordered bit,
/// then the 13-bit message number.
pub open spec fn data_flags(p: DataPacketView) -> u16 {
    (elem_bits(p.element) * 0x4000 + (if p.order { 0x2000int } else { 0 }) + p.msg_no.0) as u16
}

pub open spec fn data_wire(p: DataPacketView) -> Seq<u8> {
    be16(p.seq_no.0) + be16(data_flags(p)) + be16(p.stamp) + be16(p.dst_socket_id) + p.data
}

/// Reading of a data packet from its bytes.
pub open spec fn parse_data(b: Seq<u8>) -> Option<DataPacketView> {
    if b.len() < 8 {
        None
    } else {
        let flags = from_be16(b[2], b[3]);
        Some(
            DataPacketView {
                seq_no: SequenceNumber((from_be16(b[0], b[1]) % 0x8000) as u16),
                msg_no: MessageNumber((flags % 0x2000) as u16),
                element: elem_of(flags as int / 0x4000),
                order: (flags / 0x2000) % 2 == 1,
                stamp: from_be16(b[4], b[5]),
                dst_socket_id: from_be16(b[6], b[7]),
                data: b.subrange(8, b.len() as int),
            },
        )
    }
}

pub open spec fn data_view_wf(p: DataPacketView) -> bool {
    p.seq_no.wf() && p.msg_no.wf()
}

/// Reading back the encoding of a well-formed data packet gives the packet.
pub proof fn lemma_data_round_trip(p: DataPacketView)
    requires
        data_view_wf(p),
    ensures
        parse_data(data_wire(p)) == Some(p),
{
    let w = data_wire(p);
    let f = data_flags(p);
    assert(w.subrange(8, w.len() as int) =~= p.data);
    assert(w[0] == be16(p.seq_no.0)[0] && w[1] == be16(p.seq_no.0)[1]);
    assert(w[2] == be16(f)[0] && w[3] == be16(f)[1]);
    assert(w[4] == be16(p.stamp)[0] && w[5] == be16(p.stamp)[1]);
    assert(w[6] == be16(p.dst_socket_id)[0] && w[7] == be16(p.dst_socket_id)[1]);
    let e = elem_bits(p.element);
    let o: int = if p.order { 1 } else { 0 };
    let m = p.msg_no.0 as int;
    assert(f as int == e * 0x4000 + o * 0x2000 + m);
    assert((e * 0x4000 + o * 0x2000 + m) / 0x4000 == e) by (nonlinear_arith)
        requires 0 <= e < 4, 0 <= o < 2, 0 <= m < 0x2000;
    assert((e * 0x4000 + o * 0x2000 + m) / 0x2000 == e * 2 + o) by (nonlinear_arith)
        requires 0 <= e < 4, 0 <= o < 2, 0 <= m < 0x2000;
    assert((e * 0x4000 + o * 0x2000 + m) % 0x2000 == m) by (nonlinear_arith)
        requires 0 <= e < 4, 0 <= o < 2, 0 <= m < 0x2000;
    assert((e * 2 + o) % 2 == o) by (nonlinear_arith)
        requires 0 <= e < 4, 0 <= o < 2;
}

impl DataPacket {
    pub fn new(
        seq_no: SequenceNumber,
        msg_no: MessageNumber,
        element: DataPacketType,
        order: bool,
        stamp: u16,
        dst_socket_id: u16,
        data: Vec<u8>,
    ) -> (r: Self)
        ensures
            r.seq_no == seq_no,
            r.msg_no == msg_no,
            r.element == element,
            r.order == order,
            r.stamp == stamp,
            r.dst_socket_id == dst_socket_id,
            r.data@ == data@,
    {
        DataPacket { seq_no, msg_no, element, order, stamp, dst_socket_id, data }
    }

    pub open spec fn wf(&self) -> bool {
        data_view_wf(self@)
    }

    /// Reads a data packet; `None` when the bytes are shorter than a header.
    pub fn deserialize(bytes: &[u8]) -> (r: Option<DataPacket>)
        ensures
            match r {
                Some(p) => parse_data(bytes@) == Some(p@),
                None => parse_data(bytes@).is_none(),
            },
    {
        if bytes.len() < 8 {
            return None;
        }
        let seq = read_u16(bytes, 0);
        let flags = read_u16(bytes, 2);
        let element = if flags / 0x4000 == 3 {
            DataPacketType::Solo
        } else if flags / 0x4000 == 2 {
            DataPacketType::First
        } else if flags / 0x4000 == 1 {
            DataPacketType::Last
        } else {
            DataPacketType::Middle
        };
        let p = DataPacket {
            seq_no: SequenceNumber(seq % 0x8000),
            msg_no: MessageNumber(flags % 0x2000),
            element,
            order: (flags / 0x2000) % 2 == 1,
            stamp: read_u16(bytes, 4),
            dst_socket_id: read_u16(bytes, 6),
            data: tail(bytes, 8),
        };
        proof {
            assert(p@ == parse_data(bytes@).unwrap());
        }
        Some(p)
    }
}

impl Serial for DataPacket {
    open spec fn encodable(&self) -> bool {
        self.wf()
    }

    open spec fn wire(&self) -> Seq<u8> {
        data_wire(self@)
    }

    fn serialize(&self) -> (r: Vec<u8>) {
        let mut bytes: Vec<u8> = Vec::new();
        push_u16(&mut bytes, self.seq_no.0);
        let bits: u16 = match self.element {
            DataPacketType::Solo => 3,
            DataPacketType::First => 2,
            DataPacketType::Last => 1,
            DataPacketType::Middle => 0,
        };
        let o: u16 = if self.order { 0x2000 } else { 0 };
        let flags: u16 = bits * 0x4000 + o + self.msg_no.0;
        proof {
            assert(flags == data_flags(self@));
        }
        push_u16(&mut bytes, flags);
        push_u16(&mut bytes, self.stamp);
        push_u16(&mut bytes, self.dst_socket_id);
        append_bytes(&mut bytes, &self.data);
        proof {
            assert(bytes@ =~= data_wire(self@));
        }
        bytes
    }
}


/// The length word in front of a compressed payload.
pub open spec fn length_prefix(b: Seq<u8>) -> int {
    b[0] as int * 0x1000000 + b[1] as int * 0x10000 + b[2] as int * 0x100 + b[3] as int
}

/// The bytes `decompress` gives: the count in the first four bytes, then the code
/// tree read in pre-order from the remaining bits, then that many symbols decoded
/// from the bits after the tree (fewer when they run out); empty when the header or
/// the tree is cut short.
pub open spec fn decompressed(b: Seq<u8>) -> Seq<u8> {
    if b.len() < 4 {
        Seq::empty()
    } else {
        let bits = unpacked(b.subrange(4, b.len() as int));
        match parse_tree(bits, 0, Seq::empty(), bits.len()) {
            None => Seq::empty(),
            Some((a, root, p)) => if p > bits.len() {
                Seq::empty()
            } else {
                decode_n(a, root, bits.subrange(p, bits.len() as int), 0, length_prefix(b) as nat)
            },
        }
    }
}

impl DataPacket {
    /// Huffman-codes `bytes`: the byte count as a 32-bit big-endian word, then the
    /// code tree in pre-order and the code word of every byte, packed into bytes.
    pub fn compress(bytes: &[u8]) -> (r: Vec<u8>)
        requires
            bytes@.len() <= u32::MAX,
        ensures
            r@.len() >= 4,
            length_prefix(r@) == bytes@.len(),
    {
        let mut counts: Vec<u16> = vec![0u16; 256];
        let mut i: usize = 0;
        while i < bytes.len()
            invariant
                0 <= i <= bytes@.len(),
                counts@.len() == 256,
            decreases bytes@.len() - i,
        {
            let b = bytes[i] as usize;
            let c = counts[b].saturating_add(1);
            counts.set(b, c);
            i = i + 1;
        }
        let mut weights: Vec<(u8, u16)> = Vec::new();
        let mut s: usize = 0;
        while s < 256
            invariant
                0 <= s <= 256,
                counts@.len() == 256,
            decreases 256 - s,
        {
            if counts[s] > 0 {
                weights.push((s as u8, counts[s]));
            }
            s = s + 1;
        }
        let (book, tree) = codebook(&weights);
        let mut bits = tree.bitter_serial();
        let mut k: usize = 0;
        while k < bytes.len()
            invariant
                0 <= k <= bytes@.len(),
            decreases bytes@.len() - k,
        {
            let _ = book.encode(&mut bits, &bytes[k]);
            k = k + 1;
        }
        let n = bytes.len() as u32;
        let mut out: Vec<u8> = Vec::new();
        out.push((n / 0x1000000) as u8);
        out.push(((n / 0x10000) % 0x100) as u8);
        out.push(((n / 0x100) % 0x100) as u8);
        out.push((n % 0x100) as u8);
        let packed = bits.serialize();
        append_bytes(&mut out, &packed);
        proof {
            assert(out@[0] == (n / 0x1000000) as u8);
            assert(out@[3] == (n % 0x100) as u8);
        }
        out
    }

    /// Reverses `compress`: reads the byte count, the code tree and then that many
    /// symbols; empty when the header or the tree is cut short.
    pub fn decompress(bytes: &[u8]) -> (r: Vec<u8>)
        ensures
            r@ == decompressed(bytes@),
            bytes@.len() < 4 ==> r@.len() == 0,
            bytes@.len() >= 4 ==> r@.len() <= length_prefix(bytes@),
    {
        if bytes.len() < 4 {
            return Vec::new();
        }
        let n: u64 = bytes[0] as u64 * 0x1000000 + bytes[1] as u64 * 0x10000 + bytes[2] as u64 * 0x100 + bytes[3] as u64;
        let mut bitter = Bitter::deserialize(bytes, 4);
        let mut ptr: usize = 0;
        let tree = match Tree::bitter_deserial(&bitter, &mut ptr) {
            Some(t) => t,
            None => return Vec::new(),
        };
        if ptr > bitter.len() {
            return Vec::new();
        }
        bitter.forward(ptr);
        proof {
            assert(n as int == length_prefix(bytes@));
        }
        let out = tree.decoder(&bitter, n as usize);
        proof {
            lemma_decode_n_len(tree.arena@, tree.root as int, bitter@, 0, n as nat);
        }
        out
    }
}

proof fn lemma_decode_n_len(a: Seq<crate::huffman::NodeElement>, root: int, bits: Seq<bool>, pos: int, n: nat)
    ensures
        crate::huffman::decode_n(a, root, bits, pos, n).len() <= n,
    decreases n,
{
    if n > 0 {
        match crate::huffman::decode_one(a, root, bits, pos) {
            None => {},
            Some((d, p)) => {
                lemma_decode_n_len(a, root, bits, p, (n - 1) as nat);
            },
        }
    }
}

} // verus!
