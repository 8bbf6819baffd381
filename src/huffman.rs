use vstd::prelude::*;

verus! {

/// Bit `i` (least significant first) of `b`.
pub open spec fn bit_of(b: u8, i: int) -> bool {
    (b as int / pow2(i)) % 2 == 1
}

pub open spec fn pow2(i: int) -> int
    decreases i,
{
    if i <= 0 {
        1
    } else {
        2 * pow2(i - 1)
    }
}

/// The eight bits of `b`, least significant first.
pub open spec fn byte_bits(b: u8) -> Seq<bool> {
    Seq::new(8, |i: int| bit_of(b, i))
}

/// The byte whose bits, least significant first, are `s[0..8]`.
pub open spec fn bits_value(s: Seq<bool>, n: int) -> int
    decreases n,
{
    if n <= 0 {
        0
    } else {
        bits_value(s, n - 1) + if s[n - 1] { pow2(n - 1) } else { 0 }
    }
}

/// A growable sequence of bits.
#[derive(Clone, Debug)]
pub struct Bitter {
    vec: Vec<bool>,
}

impl View for Bitter {
    type V = Seq<bool>;

    closed spec fn view(&self) -> Seq<bool> {
        self.vec@
    }
}

proof fn lemma_bit_step(b: u8, i: int)
    requires
        0 <= i < 8,
    ensures
        ((b >> (i as u8)) & 1u8 == 1u8) == bit_of(b, i),
{
    reveal_with_fuel(pow2, 8);
    let b = b;
    if i == 0 {
        assert((b >> 0u8) & 1u8 == b % 2) by (bit_vector);
    } else if i == 1 {
        assert((b >> 1u8) & 1u8 == (b / 2) % 2) by (bit_vector);
    } else if i == 2 {
        assert((b >> 2u8) & 1u8 == (b / 4) % 2) by (bit_vector);
    } else if i == 3 {
        assert((b >> 3u8) & 1u8 == (b / 8) % 2) by (bit_vector);
    } else if i == 4 {
        assert((b >> 4u8) & 1u8 == (b / 16) % 2) by (bit_vector);
    } else if i == 5 {
        assert((b >> 5u8) & 1u8 == (b / 32) % 2) by (bit_vector);
    } else if i == 6 {
        assert((b >> 6u8) & 1u8 == (b / 64) % 2) by (bit_vector);
    } else {
        assert((b >> 7u8) & 1u8 == (b / 128) % 2) by (bit_vector);
    }
}

impl Bitter {
    pub fn new() -> (r: Self)
        ensures
            r@ == Seq::<bool>::empty(),
    {
        let r = Bitter { vec: Vec::new() };
        proof {
            assert(r@ =~= Seq::<bool>::empty());
        }
        r
    }

    pub fn push(&mut self, bit: bool)
        ensures
            final(self)@ == old(self)@.push(bit),
    {
        self.vec.push(bit);
    }

    /// Appends all bits of `other`.
    pub fn extend(&mut self, other: &Self)
        ensures
            final(self)@ == old(self)@ + other@,
    {
        let mut i: usize = 0;
        while i < other.vec.len()
            invariant
                0 <= i <= other@.len(),
                self@ == old(self)@ + other@.subrange(0, i as int),
            decreases other@.len() - i,
        {
            self.vec.push(other.vec[i]);
            proof {
                assert(old(self)@ + other@.subrange(0, i + 1) =~= (old(self)@ + other@.subrange(0, i as int)).push(other@[i as int]));
            }
            i = i + 1;
        }
        proof {
            assert(other@.subrange(0, other@.len() as int) =~= other@);
        }
    }

    /// Appends the eight bits of `byte`, least significant first.
    pub fn add_u8(&mut self, byte: u8)
        ensures
            final(self)@ == old(self)@ + byte_bits(byte),
    {
        let mut i: u8 = 0;
        while i < 8
            invariant
                0 <= i <= 8,
                self@ == old(self)@ + byte_bits(byte).take(i as int),
            decreases 8 - i,
        {
            proof {
                lemma_bit_step(byte, i as int);
            }
            self.vec.push((byte >> i) & 1 == 1);
            proof {
                assert(byte_bits(byte).take(i + 1) =~= byte_bits(byte).take(i as int).push(bit_of(byte, i as int)));
                assert(self@ =~= old(self)@ + byte_bits(byte).take(i + 1));
            }
            i = i + 1;
        }
        proof {
            assert(byte_bits(byte).take(8) =~= byte_bits(byte));
        }
    }

    /// Reads the bit at `*ptr` and moves `ptr` past it.
    pub fn get(&self, ptr: &mut usize) -> (r: bool)
        requires
            *old(ptr) < self@.len(),
        ensures
            r == self@[*old(ptr) as int],
            *final(ptr) == *old(ptr) + 1,
    {
        let n = self.vec.len();
        let out = self.vec[*ptr];
        assert(*ptr < n);
        *ptr = *ptr + 1;
        out
    }

    pub fn len(&self) -> (r: usize)
        ensures
            r == self@.len(),
    {
        self.vec.len()
    }

    pub fn is_empty(&self) -> (r: bool)
        ensures
            r == (self@.len() == 0),
    {
        self.vec.len() == 0
    }

    /// Reads eight bits at `*ptr`, least significant first, and moves past them.
    pub fn get_u8(&self, ptr: &mut usize) -> (r: u8)
        requires
            *old(ptr) + 8 <= self@.len(),
        ensures
            r as int == bits_value(self@.subrange(*old(ptr) as int, *old(ptr) + 8), 8),
            *final(ptr) == *old(ptr) + 8,
    {
        let start = *ptr;
        let n = self.vec.len();
        let ghost s = self@.subrange(start as int, start + 8);
        let mut out: u8 = 0;
        let mut weight: u8 = 1;
        let mut i: usize = 0;
        while i < 8
            invariant
                0 <= i <= 8,
                *ptr == start + i,
                start + 8 <= self@.len(),
                n == self@.len(),
                s == self@.subrange(start as int, start + 8),
                out as int == bits_value(s, i as int),
                i < 8 ==> weight as int == pow2(i as int),
                bits_value(s, i as int) < pow2(i as int),
                pow2(i as int) <= 256,
            decreases 8 - i,
        {
            proof {
                reveal_with_fuel(pow2, 9);
                reveal_with_fuel(bits_value, 2);
                assert(s[i as int] == self@[start + i]);
            }
            if self.vec[*ptr] {
                out = out + weight;
            }
            *ptr = *ptr + 1;
            i = i + 1;
            if i < 8 {
                weight = weight * 2;
            }
        }
        out
    }

    /// Drops the first `ptr` bits.
    pub fn forward(&mut self, ptr: usize)
        requires
            ptr <= old(self)@.len(),
        ensures
            final(self)@ == old(self)@.subrange(ptr as int, old(self)@.len() as int),
    {
        let mut out: Vec<bool> = Vec::new();
        let mut i: usize = ptr;
        while i < self.vec.len()
            invariant
                ptr <= i <= self@.len(),
                self@ == old(self)@,
                out@ == self@.subrange(ptr as int, i as int),
            decreases self@.len() - i,
        {
            out.push(self.vec[i]);
            proof {
                assert(self@.subrange(ptr as int, i + 1) =~= self@.subrange(ptr as int, i as int).push(self@[i as int]));
            }
            i = i + 1;
        }
        self.vec = out;
    }
}


/// A node of a code tree: a leaf holds a symbol, a branch two children.
#[derive(Clone, Debug)]
pub enum Node {
    Leaf(u8),
    Branch(usize, usize),
}

#[derive(Clone, Debug)]
pub struct NodeElement {
    pub parent: Option<usize>,
    pub data: Node,
}

/// A code tree stored in an arena; children always stand before their parent.
#[derive(Clone, Debug)]
pub struct Tree {
    pub root: usize,
    pub arena: Vec<NodeElement>,
}

/// Children precede their parent.
pub open spec fn arena_wf(a: Seq<NodeElement>) -> bool {
    forall|i: int|
        0 <= i < a.len() ==> match (#[trigger] a[i]).data {
            Node::Branch(l, r) => l < i && r < i,
            Node::Leaf(_) => true,
        }
}

/// Pre-order bits of the subtree at `i`: `1` and the symbol's eight bits for a
/// leaf, `0` then the left and right subtrees for a branch.
pub open spec fn tree_bits(a: Seq<NodeElement>, i: int) -> Seq<bool>
    decreases i,
{
    if i < 0 || i >= a.len() {
        Seq::empty()
    } else {
        match a[i].data {
            Node::Leaf(d) => seq![true] + byte_bits(d),
            Node::Branch(l, r) => seq![false] + (if 0 <= l < i { tree_bits(a, l as int) } else { Seq::empty() }) + (
            if 0 <= r < i { tree_bits(a, r as int) } else { Seq::empty() }),
        }
    }
}

/// Decoding one symbol from `bits` at `pos`, walking down from node `i`:
/// a `1` bit goes left, a `0` bit right. `None` when the bits run out.
pub open spec fn decode_one(a: Seq<NodeElement>, i: int, bits: Seq<bool>, pos: int) -> Option<(u8, int)>
    decreases i,
{
    if i < 0 || i >= a.len() {
        None
    } else {
        match a[i].data {
            Node::Leaf(d) => Some((d, pos)),
            Node::Branch(l, r) => if pos < 0 || pos >= bits.len() {
                None
            } else if bits[pos] {
                if 0 <= l < i { decode_one(a, l as int, bits, pos + 1) } else { None }
            } else {
                if 0 <= r < i { decode_one(a, r as int, bits, pos + 1) } else { None }
            },
        }
    }
}

/// Up to `n` symbols decoded from `bits` at `pos`, stopping when the bits run out.
pub open spec fn decode_n(a: Seq<NodeElement>, root: int, bits: Seq<bool>, pos: int, n: nat) -> Seq<u8>
    decreases n,
{
    if n == 0 {
        Seq::empty()
    } else {
        match decode_one(a, root, bits, pos) {
            None => Seq::empty(),
            Some((d, p)) => seq![d] + decode_n(a, root, bits, p, (n - 1) as nat),
        }
    }
}

/// Reading a tree in pre-order from `bits` at `pos` onto the arena `a`, at most
/// `fuel` levels deep: the extended arena, the index of the subtree's root and the
/// position after it. A `1` bit and eight symbol bits make a leaf; a `0` bit is a
/// branch whose left and right subtrees follow.
pub open spec fn parse_tree(bits: Seq<bool>, pos: int, a: Seq<NodeElement>, fuel: nat) -> Option<(Seq<NodeElement>, int, int)>
    decreases fuel,
{
    if fuel == 0 || pos < 0 || pos >= bits.len() {
        None
    } else if bits[pos] {
        if bits.len() - (pos + 1) < 8 {
            None
        } else {
            let d = bits_value(bits.subrange(pos + 1, pos + 9), 8) as u8;
            Some((a.push(NodeElement { parent: None, data: Node::Leaf(d) }), a.len() as int, pos + 9))
        }
    } else {
        match parse_tree(bits, pos + 1, a, (fuel - 1) as nat) {
            None => None,
            Some((a1, l, p1)) => match parse_tree(bits, p1, a1, (fuel - 1) as nat) {
                None => None,
                Some((a2, r, p2)) => Some(
                    (a2.push(NodeElement { parent: None, data: Node::Branch(l as usize, r as usize) }), a2.len() as int, p2),
                ),
            },
        }
    }
}

impl Tree {
    pub open spec fn wf(&self) -> bool {
        arena_wf(self.arena@) && (self.arena@.len() > 0 ==> self.root < self.arena@.len())
    }

    /// The pre-order bit encoding of the tree.
    pub fn bitter_serial(&self) -> (r: Bitter)
        requires
            self.wf(),
        ensures
            r@ == tree_bits(self.arena@, self.root as int),
    {
        let mut bitter = Bitter::new();
        if self.root < self.arena.len() {
            self.serial_helper(&mut bitter, self.root);
        }
        proof {
            assert(bitter@ =~= Seq::<bool>::empty() + tree_bits(self.arena@, self.root as int));
        }
        bitter
    }

    fn serial_helper(&self, bitter: &mut Bitter, idx: usize)
        requires
            self.wf(),
            idx < self.arena@.len(),
        ensures
            final(bitter)@ == old(bitter)@ + tree_bits(self.arena@, idx as int),
        decreases idx,
    {
        match &self.arena[idx].data {
            Node::Leaf(d) => {
                bitter.push(true);
                bitter.add_u8(*d);
                proof {
                    assert(final(bitter)@ =~= old(bitter)@ + tree_bits(self.arena@, idx as int));
                }
            },
            Node::Branch(l, r) => {
                bitter.push(false);
                let ghost mid1 = bitter@;
                self.serial_helper(bitter, *l);
                let ghost mid2 = bitter@;
                self.serial_helper(bitter, *r);
                proof {
                    assert(final(bitter)@ =~= old(bitter)@ + tree_bits(self.arena@, idx as int));
                }
            },
        }
    }

    /// Reads a tree in pre-order from `bitter` at `*ptr`; `None` when the bits run out.
    pub fn bitter_deserial(bitter: &Bitter, ptr: &mut usize) -> (r: Option<Tree>)
        ensures
            r.is_some() ==> r.unwrap().wf() && r.unwrap().arena@.len() > 0,
            *old(ptr) <= *final(ptr),
            match parse_tree(bitter@, *old(ptr) as int, Seq::empty(), bitter@.len()) {
                Some((a, root, p)) => r.is_some() && r.unwrap().arena@ == a && r.unwrap().root as int == root && *final(ptr) as int == p,
                None => r.is_none(),
            },
    {
        let mut arena: Vec<NodeElement> = Vec::new();
        proof {
            assert(arena@ =~= Seq::<NodeElement>::empty());
        }
        let ghost p0 = *ptr as int;
        let fuel = bitter.len();
        let res = Self::deserial_helper(bitter, ptr, &mut arena, fuel);
        proof {
            assert(fuel as nat == bitter@.len());
        }
        match res {
            Some(root) => {
                let n = arena.len();
                let t = Tree { root, arena };
                proof {
                    let (a, rt, p) = parse_tree(bitter@, p0, Seq::empty(), bitter@.len()).unwrap();
                    assert(t.arena@ == a);
                }
                Some(t)
            },
            None => None,
        }
    }

    fn deserial_helper(bitter: &Bitter, ptr: &mut usize, arena: &mut Vec<NodeElement>, fuel: usize) -> (r: Option<usize>)
        requires
            arena_wf(old(arena)@),
        ensures
            arena_wf(final(arena)@),
            *old(ptr) <= *final(ptr),
            *old(ptr) <= bitter@.len() ==> *final(ptr) <= bitter@.len(),
            final(arena)@.len() >= old(arena)@.len(),
            r.is_some() ==> r.unwrap() < final(arena)@.len(),
            match parse_tree(bitter@, *old(ptr) as int, old(arena)@, fuel as nat) {
                Some((a, root, p)) => 0 <= root < a.len() && r == Some(root as usize) && final(arena)@ == a && *final(ptr) as int == p,
                None => r.is_none(),
            },
        decreases fuel,
    {
        if fuel == 0 || *ptr >= bitter.len() {
            return None;
        }
        let ghost a0 = arena@;
        let ghost p0 = *ptr as int;
        if bitter.get(ptr) {
            if *ptr > bitter.len() || bitter.len() - *ptr < 8 {
                return None;
            }
            let data = bitter.get_u8(ptr);
            arena.push(NodeElement { parent: None, data: Node::Leaf(data) });
            proof {
                assert forall|i: int| 0 <= i < arena@.len() implies match (#[trigger] arena@[i]).data {
                    Node::Branch(l, r) => l < i && r < i,
                    Node::Leaf(_) => true,
                } by {
                    if i < arena@.len() - 1 {
                        assert(arena@[i] == old(arena)@[i]);
                    }
                }
            }
            Some(arena.len() - 1)
        } else {
            let left = match Self::deserial_helper(bitter, ptr, arena, fuel - 1) {
                Some(l) => l,
                None => return None,
            };
            let right = match Self::deserial_helper(bitter, ptr, arena, fuel - 1) {
                Some(r) => r,
                None => return None,
            };
            let id = arena.len();
            let ghost before = arena@;
            arena.push(NodeElement { parent: None, data: Node::Branch(left, right) });
            proof {
                assert forall|i: int| 0 <= i < arena@.len() implies match (#[trigger] arena@[i]).data {
                    Node::Branch(l, r) => l < i && r < i,
                    Node::Leaf(_) => true,
                } by {
                    if i < before.len() {
                        assert(arena@[i] == before[i]);
                    }
                }
            }
            Some(id)
        }
    }

    /// Decodes at most `num_symbols` symbols from `bitter`, stopping when its bits run out.
    pub fn decoder(&self, bitter: &Bitter, num_symbols: usize) -> (r: Vec<u8>)
        requires
            self.wf(),
        ensures
            r@ == decode_n(self.arena@, self.root as int, bitter@, 0, num_symbols as nat),
    {
        let mut out: Vec<u8> = Vec::new();
        let mut pos: usize = 0;
        let mut k: usize = 0;
        let ghost a = self.arena@;
        let ghost target = decode_n(a, self.root as int, bitter@, 0, num_symbols as nat);
        while k < num_symbols
            invariant
                self.wf(),
                a == self.arena@,
                0 <= k <= num_symbols,
                pos <= bitter@.len(),
                target == decode_n(a, self.root as int, bitter@, 0, num_symbols as nat),
                target == out@ + decode_n(a, self.root as int, bitter@, pos as int, (num_symbols - k) as nat),
            decreases num_symbols - k,
        {
            match self.decode_symbol(bitter, &mut pos) {
                Some(d) => {
                    proof {
                        assert(out@.push(d) + decode_n(a, self.root as int, bitter@, pos as int, (num_symbols - k - 1) as nat)
                            =~= out@ + (seq![d] + decode_n(a, self.root as int, bitter@, pos as int, (num_symbols - k - 1) as nat)));
                    }
                    out.push(d);
                },
                None => {
                    proof {
                        assert(out@ + Seq::<u8>::empty() =~= out@);
                    }
                    return out;
                },
            }
            k = k + 1;
        }
        proof {
            assert(out@ + Seq::<u8>::empty() =~= out@);
        }
        out
    }

    /// Decodes the symbols that `bitter` holds in full, at most one per bit.
    pub fn unbounded_decoder(&self, bitter: &Bitter) -> (r: Vec<u8>)
        requires
            self.wf(),
        ensures
            r@ == decode_n(self.arena@, self.root as int, bitter@, 0, bitter@.len()),
    {
        self.decoder(bitter, bitter.len())
    }

    fn decode_symbol(&self, bitter: &Bitter, pos: &mut usize) -> (r: Option<u8>)
        requires
            self.wf(),
            *old(pos) <= bitter@.len(),
        ensures
            *final(pos) <= bitter@.len(),
            match decode_one(self.arena@, self.root as int, bitter@, *old(pos) as int) {
                Some((d, p)) => r == Some(d) && *final(pos) == p,
                None => r.is_none(),
            },
    {
        if self.root >= self.arena.len() {
            return None;
        }
        let mut node: usize = self.root;
        let n = bitter.len();
        let ghost a = self.arena@;
        let ghost start = *pos;
        loop
            invariant
                self.wf(),
                a == self.arena@,
                node < a.len(),
                *pos <= n,
                n == bitter@.len(),
                start == *old(pos),
                decode_one(a, self.root as int, bitter@, start as int) == decode_one(a, node as int, bitter@, *pos as int),
            decreases node,
        {
            match &self.arena[node].data {
                Node::Leaf(d) => {
                    proof {
                        assert(decode_one(a, node as int, bitter@, *pos as int) == Some((*d, *pos as int)));
                    }
                    return Some(*d);
                },
                Node::Branch(l, r) => {
                    proof {
                        assert(a[node as int].data == Node::Branch(*l, *r));
                        assert(*l < node && *r < node);
                    }
                    if *pos >= n {
                        proof {
                            assert(decode_one(a, node as int, bitter@, *pos as int).is_none());
                        }
                        return None;
                    }
                    let ghost p0 = *pos;
                    let bit = bitter.get(pos);
                    proof {
                        if bit {
                            assert(decode_one(a, node as int, bitter@, p0 as int) == decode_one(a, *l as int, bitter@, p0 + 1));
                        } else {
                            assert(decode_one(a, node as int, bitter@, p0 as int) == decode_one(a, *r as int, bitter@, p0 + 1));
                        }
                    }
                    node = if bit { *l } else { *r };
                },
            }
        }
    }
}


/// Code words of the leaves under node `i`, left to right, each prefixed by `word`:
/// the left child adds a `1`, the right child a `0`.
pub open spec fn codes(a: Seq<NodeElement>, i: int, word: Seq<bool>) -> Seq<(u8, Seq<bool>)>
    decreases i,
{
    if i < 0 || i >= a.len() {
        Seq::empty()
    } else {
        match a[i].data {
            Node::Leaf(d) => seq![(d, word)],
            Node::Branch(l, r) => (if 0 <= l < i { codes(a, l as int, word.push(true)) } else { Seq::empty() }) + (
            if 0 <= r < i { codes(a, r as int, word.push(false)) } else { Seq::empty() }),
        }
    }
}

/// Returned when a symbol has no code word.
#[derive(Clone, Debug)]
pub struct EncodeError;

/// The code word of each symbol.
#[derive(Clone, Debug)]
pub struct Book {
    book: Vec<(u8, Bitter)>,
}

impl View for Book {
    type V = Seq<(u8, Seq<bool>)>;

    closed spec fn view(&self) -> Seq<(u8, Seq<bool>)> {
        self.book@.map_values(|e: (u8, Bitter)| (e.0, e.1@))
    }
}

/// Index of the first entry for `k`, if any.
pub open spec fn find_code(b: Seq<(u8, Seq<bool>)>, k: u8) -> Option<int> {
    if exists|i: int| 0 <= i < b.len() && b[i].0 == k {
        Some(choose|i: int| 0 <= i < b.len() && b[i].0 == k && forall|j: int| 0 <= j < i ==> b[j].0 != k)
    } else {
        None
    }
}

impl Book {
    pub fn into_inner(self) -> (r: Vec<(u8, Bitter)>)
        ensures
            r@.map_values(|e: (u8, Bitter)| (e.0, e.1@)) == self@,
    {
        self.book
    }

    /// The symbols, in book order.
    pub fn symbols(&self) -> (r: Vec<u8>)
        ensures
            r@ == self@.map_values(|e: (u8, Seq<bool>)| e.0),
    {
        let mut out: Vec<u8> = Vec::new();
        let mut i: usize = 0;
        while i < self.book.len()
            invariant
                0 <= i <= self@.len(),
                out@ == self@.take(i as int).map_values(|e: (u8, Seq<bool>)| e.0),
            decreases self@.len() - i,
        {
            out.push(self.book[i].0);
            proof {
                assert(self@.take(i + 1).map_values(|e: (u8, Seq<bool>)| e.0) =~= self@.take(i as int).map_values(|e: (u8, Seq<bool>)| e.0).push(self@[i as int].0));
            }
            i = i + 1;
        }
        proof {
            assert(self@.take(self@.len() as int) =~= self@);
        }
        out
    }

    /// The entries, in book order.
    pub fn iter(&self) -> (r: &Vec<(u8, Bitter)>)
        ensures
            r@.map_values(|e: (u8, Bitter)| (e.0, e.1@)) == self@,
    {
        &self.book
    }

    pub fn len(&self) -> (r: usize)
        ensures
            r == self@.len(),
    {
        self.book.len()
    }

    pub fn is_empty(&self) -> (r: bool)
        ensures
            r == (self@.len() == 0),
    {
        self.book.len() == 0
    }

    fn position(&self, k: u8) -> (r: Option<usize>)
        ensures
            r.is_some() ==> r.unwrap() < self.book@.len() && self@[r.unwrap() as int].1 == self.book@[r.unwrap() as int].1@,
            r.is_some() == find_code(self@, k).is_some(),
            r.is_some() ==> find_code(self@, k).unwrap() == r.unwrap() as int,
    {
        let mut i: usize = 0;
        while i < self.book.len()
            invariant
                0 <= i <= self@.len(),
                forall|j: int| 0 <= j < i ==> self@[j].0 != k,
            decreases self@.len() - i,
        {
            if self.book[i].0 == k {
                proof {
                    assert(self@[i as int].0 == k);
                    let c = find_code(self@, k).unwrap();
                    assert(c == i as int) by {
                        if c < i { assert(self@[c].0 != k); }
                        if c > i { }
                    }
                }
                return Some(i);
            }
            i = i + 1;
        }
        None
    }

    /// The code word of `k`.
    pub fn get(&self, k: &u8) -> (r: Option<&Bitter>)
        ensures
            match find_code(self@, *k) {
                Some(i) => r.is_some() && r.unwrap()@ == self@[i].1,
                None => r.is_none(),
            },
    {
        match self.position(*k) {
            Some(i) => Some(&self.book[i].1),
            None => None,
        }
    }

    pub fn contains_symbol(&self, k: &u8) -> (r: bool)
        ensures
            r == find_code(self@, *k).is_some(),
    {
        self.position(*k).is_some()
    }

    /// Appends the code word of `k` to `buffer`; an error when `k` has none.
    pub fn encode(&self, buffer: &mut Bitter, k: &u8) -> (r: Result<(), EncodeError>)
        ensures
            match find_code(self@, *k) {
                Some(i) => r.is_ok() && final(buffer)@ == old(buffer)@ + self@[i].1,
                None => r.is_err() && final(buffer)@ == old(buffer)@,
            },
    {
        match self.position(*k) {
            Some(i) => {
                buffer.extend(&self.book[i].1);
                Ok(())
            },
            None => Err(EncodeError),
        }
    }

    fn new() -> (r: Book)
        ensures
            r@ == Seq::<(u8, Seq<bool>)>::empty(),
    {
        let r = Book { book: Vec::new() };
        proof {
            assert(r@ =~= Seq::<(u8, Seq<bool>)>::empty());
        }
        r
    }

    fn build(&mut self, arena: &Vec<NodeElement>, node: usize, word: Bitter)
        requires
            arena_wf(arena@),
            node < arena@.len(),
        ensures
            final(self)@ == old(self)@ + codes(arena@, node as int, word@),
        decreases node,
    {
        match &arena[node].data {
            Node::Leaf(d) => {
                let ghost before = self@;
                self.book.push((*d, word));
                proof {
                    assert(self@ =~= before + codes(arena@, node as int, word@));
                }
            },
            Node::Branch(l, r) => {
                let mut left_word = word.clone_bits();
                left_word.push(true);
                self.build(arena, *l, left_word);
                let mut right_word = word;
                right_word.push(false);
                self.build(arena, *r, right_word);
                proof {
                    assert(final(self)@ =~= old(self)@ + codes(arena@, node as int, word@));
                }
            },
        }
    }
}

impl Bitter {
    /// A copy of the bits.
    pub fn clone_bits(&self) -> (r: Bitter)
        ensures
            r@ == self@,
    {
        let mut out = Bitter::new();
        out.extend(self);
        proof {
            assert(out@ =~= self@);
        }
        out
    }
}

#[derive(Copy, Clone, Debug)]
struct HeapData {
    weight: u16,
    symbol: u8,
    id: usize,
}

/// `a` leaves the queue before `b`: lower weight first, then the higher symbol,
/// then the higher id.
pub open spec fn heap_first(a: (u16, u8, usize), b: (u16, u8, usize)) -> bool {
    a.0 < b.0 || (a.0 == b.0 && (a.1 > b.1 || (a.1 == b.1 && a.2 >= b.2)))
}

/// Collects symbols and weights and builds a Huffman code from them.
#[derive(Clone, Debug)]
pub struct CodeBuilder {
    heap: Vec<HeapData>,
    arena: Vec<NodeElement>,
}

impl CodeBuilder {
    pub closed spec fn wf(&self) -> bool {
        &&& arena_wf(self.arena@)
        &&& forall|i: int| 0 <= i < self.heap@.len() ==> (#[trigger] self.heap@[i]).id < self.arena@.len()
    }

    /// The symbols pushed so far, in order.
    pub closed spec fn leaves(&self) -> Seq<NodeElement> {
        self.arena@
    }

    pub fn new() -> (r: CodeBuilder)
        ensures
            r.wf(),
            r.leaves().len() == 0,
    {
        CodeBuilder { heap: Vec::new(), arena: Vec::new() }
    }

    pub fn with_capacity(capacity: usize) -> (r: CodeBuilder)
        ensures
            r.wf(),
            r.leaves().len() == 0,
    {
        CodeBuilder { heap: Vec::with_capacity(capacity), arena: Vec::new() }
    }

    /// Adds a leaf for `symbol` with `weight`.
    pub fn push(&mut self, symbol: u8, weight: u16)
        requires
            old(self).wf(),
        ensures
            final(self).wf(),
            final(self).leaves() == old(self).leaves().push(NodeElement { parent: None, data: Node::Leaf(symbol) }),
    {
        let id = self.arena.len();
        self.heap.push(HeapData { weight, symbol, id });
        self.arena.push(NodeElement { parent: None, data: Node::Leaf(symbol) });
        proof {
            assert forall|i: int| 0 <= i < self.arena@.len() implies match (#[trigger] self.arena@[i]).data {
                Node::Branch(l, r) => l < i && r < i,
                Node::Leaf(_) => true,
            } by {
                if i < id {
                    assert(self.arena@[i] == old(self).arena@[i]);
                }
            }
        }
    }

    /// Index of the entry that leaves the queue first.
    fn pop_index(&self) -> (r: usize)
        requires
            self.heap@.len() > 0,
        ensures
            r < self.heap@.len(),
    {
        let mut best: usize = 0;
        let mut i: usize = 1;
        while i < self.heap.len()
            invariant
                1 <= i <= self.heap@.len(),
                best < i,
            decreases self.heap@.len() - i,
        {
            let a = self.heap[i];
            let b = self.heap[best];
            if a.weight < b.weight || (a.weight == b.weight && (a.symbol > b.symbol || (a.symbol == b.symbol && a.id >= b.id))) {
                best = i;
            }
            i = i + 1;
        }
        best
    }

    /// Builds the code: repeatedly joins the two lightest subtrees under a new
    /// branch. Returns the code book of the resulting tree and the tree itself.
    pub fn finish(self) -> (r: (Book, Tree))
        requires
            self.wf(),
        ensures
            r.1.wf(),
            r.1.arena@.len() >= self.leaves().len(),
            self.leaves().len() > 0 ==> r.0@ == codes(r.1.arena@, r.1.root as int, Seq::empty()),
            self.leaves().len() == 0 ==> r.0@.len() == 0,
    {
        let mut heap = self.heap;
        let mut arena = self.arena;
        let ghost n0 = arena@.len();
        let mut book = Book::new();
        if heap.len() == 0 {
            let ghost a0 = arena@;
            proof {
                assert(arena_wf(arena@));
            }
            if arena.len() == 0 {
                return (book, Tree { root: 0, arena });
            }
            let t = Tree { root: arena.len() - 1, arena };
            book.build(&t.arena, t.root, Bitter::new());
            proof {
                assert(book@ =~= Seq::<(u8, Seq<bool>)>::empty() + codes(t.arena@, t.root as int, Seq::empty()));
            }
            return (book, t);
        }
        proof {
            assert(heap@[0].id < arena@.len());
        }
        loop
            invariant
                arena_wf(arena@),
                forall|i: int| 0 <= i < heap@.len() ==> (#[trigger] heap@[i]).id < arena@.len(),
                heap@.len() > 0,
                arena@.len() >= n0,
                n0 == self.leaves().len(),
                n0 > 0,
                book@ == Seq::<(u8, Seq<bool>)>::empty(),
            decreases heap@.len(),
        {
            let li = {
                let tmp = CodeBuilder { heap, arena };
                let k = tmp.pop_index();
                heap = tmp.heap;
                arena = tmp.arena;
                k
            };
            let left = heap.remove(li);
            if heap.len() == 0 {
                let t = Tree { root: left.id, arena };
                book.build(&t.arena, t.root, Bitter::new());
                proof {
                    assert(book@ =~= Seq::<(u8, Seq<bool>)>::empty() + codes(t.arena@, t.root as int, Seq::empty()));
                }
                return (book, t);
            }
            let ri = {
                let tmp = CodeBuilder { heap, arena };
                let k = tmp.pop_index();
                heap = tmp.heap;
                arena = tmp.arena;
                k
            };
            let right = heap.remove(ri);
            let id = arena.len();
            let w = left.weight.saturating_add(right.weight);
            let sym = if left.symbol < right.symbol { left.symbol } else { right.symbol };
            let ghost before = arena@;
            arena.push(NodeElement { parent: None, data: Node::Branch(left.id, right.id) });
            heap.push(HeapData { weight: w, symbol: sym, id });
            proof {
                assert forall|i: int| 0 <= i < arena@.len() implies match (#[trigger] arena@[i]).data {
                    Node::Branch(l, r) => l < i && r < i,
                    Node::Leaf(_) => true,
                } by {
                    if i < before.len() {
                        assert(arena@[i] == before[i]);
                    }
                }
            }
        }
    }
}

/// Builds a code from (symbol, weight) pairs.
pub fn codebook(weights: &Vec<(u8, u16)>) -> (r: (Book, Tree))
    ensures
        r.1.wf(),
        weights@.len() > 0 ==> r.0@ == codes(r.1.arena@, r.1.root as int, Seq::empty()),
{
    let mut code = CodeBuilder::with_capacity(weights.len());
    let mut i: usize = 0;
    while i < weights.len()
        invariant
            0 <= i <= weights@.len(),
            code.wf(),
            code.leaves().len() == i,
        decreases weights@.len() - i,
    {
        let (s, w) = weights[i];
        code.push(s, w);
        i = i + 1;
    }
    code.finish()
}


/// The bits of byte `j` of the packed form of `s` (zero-padded at the end).
pub open spec fn packed_window(s: Seq<bool>, j: int) -> Seq<bool> {
    Seq::new(8, |i: int| 8 * j + i < s.len() && s[8 * j + i])
}

/// The bits of `bytes`, eight per byte, least significant first.
pub open spec fn unpacked(bytes: Seq<u8>) -> Seq<bool> {
    Seq::new(8 * bytes.len(), |k: int| bit_of(bytes[k / 8], k % 8))
}

impl Bitter {
    /// Packs the bits into bytes, eight per byte, least significant first; the last
    /// byte is padded with zeros.
    pub fn serialize(&self) -> (r: Vec<u8>)
        ensures
            r@.len() == (self@.len() + 7) / 8,
            forall|j: int| 0 <= j < r@.len() ==> (#[trigger] r@[j]) as int == bits_value(packed_window(self@, j), 8),
    {
        let n = self.vec.len();
        let count: usize = n / 8 + if n % 8 == 0 { 0 } else { 1 };
        let mut out: Vec<u8> = Vec::new();
        let mut j: usize = 0;
        while j < count
            invariant
                n == self@.len(),
                count == (n + 7) / 8,
                0 <= j <= count,
                out@.len() == j,
                forall|t: int| 0 <= t < j ==> (#[trigger] out@[t]) as int == bits_value(packed_window(self@, t), 8),
            decreases count - j,
        {
            let ghost w = packed_window(self@, j as int);
            let mut b: u8 = 0;
            let mut weight: u8 = 1;
            let mut i: usize = 0;
            while i < 8
                invariant
                    n == self@.len(),
                    j < count,
                    count == (n + 7) / 8,
                    0 <= i <= 8,
                    w == packed_window(self@, j as int),
                    b as int == bits_value(w, i as int),
                    i < 8 ==> weight as int == pow2(i as int),
                    bits_value(w, i as int) < pow2(i as int),
                    pow2(i as int) <= 256,
                decreases 8 - i,
            {
                proof {
                    reveal_with_fuel(pow2, 9);
                    reveal_with_fuel(bits_value, 2);
                }
                let k = 8 * j + i;
                if k < n && self.vec[k] {
                    b = b + weight;
                }
                i = i + 1;
                if i < 8 {
                    weight = weight * 2;
                }
            }
            out.push(b);
            j = j + 1;
        }
        out
    }

    /// The bits of `bytes[start..]`, eight per byte, least significant first.
    pub fn deserialize(bytes: &[u8], start: usize) -> (r: Bitter)
        requires
            start <= bytes@.len(),
        ensures
            r@ == unpacked(bytes@.subrange(start as int, bytes@.len() as int)),
    {
        let ghost src = bytes@.subrange(start as int, bytes@.len() as int);
        let mut out = Bitter::new();
        let mut i: usize = start;
        while i < bytes.len()
            invariant
                start <= i <= bytes@.len(),
                src == bytes@.subrange(start as int, bytes@.len() as int),
                out@ == unpacked(src.take(i - start)),
            decreases bytes@.len() - i,
        {
            let ghost before = out@;
            out.add_u8(bytes[i]);
            proof {
                let m = (i - start) as int;
                let a = unpacked(src.take(m + 1));
                assert forall|k: int| 0 <= k < a.len() implies a[k] == (before + byte_bits(bytes@[i as int]))[k] by {
                    if k < 8 * m {
                        assert(k / 8 < m);
                    } else {
                        assert(k / 8 == m);
                        assert(src.take(m + 1)[m] == bytes@[i as int]);
                    }
                }
                assert(a =~= before + byte_bits(bytes@[i as int]));
            }
            i = i + 1;
        }
        proof {
            assert(src.take(bytes@.len() - start) =~= src);
        }
        out
    }
}

} // verus!
