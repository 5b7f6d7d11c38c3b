//! 160-bit node identifiers, k-buckets, and the routing table of a
//! Kademlia-style distributed hash table.
//!
//! A `NodeId` is an exact 160-bit unsigned integer held as five 32-bit
//! words, word 0 least significant.  Every contract below speaks of the
//! mathematical value of an identifier through `NodeId::val`.

use vstd::prelude::*;

verus! {

/// The size of the identifier space: 2^160.
pub open spec fn id_space() -> nat {
    0x10000000000000000000000000000000000000000nat
}

/// The largest identifier value, 2^160 - 1.
pub open spec fn max_id_val() -> nat {
    (id_space() - 1) as nat
}

/// A 160-bit unsigned identifier, five 32-bit words, word 0 least significant.
#[derive(Clone, Copy, PartialEq, Eq, Hash, Debug)]
pub struct NodeId {
    pub data: [u32; 5],
}

impl NodeId {
    /// The numeric value of the identifier: its words read in base 2^32.
    #[verifier::opaque]
    pub open spec fn val(self) -> nat {
        self.data[0] as nat + self.data[1] as nat * 0x100000000
            + self.data[2] as nat * 0x10000000000000000nat
            + self.data[3] as nat * 0x1000000000000000000000000nat
            + self.data[4] as nat * 0x100000000000000000000000000000000nat
    }

    pub fn new(a: u32, b: u32, c: u32, d: u32, e: u32) -> (r: NodeId)
        ensures
            r.data[0] == a && r.data[1] == b && r.data[2] == c && r.data[3] == d && r.data[4]
                == e,
    {
        NodeId { data: [a, b, c, d, e] }
    }

    /// `self + 1`, wrapping to zero past the largest 160-bit value.
    pub fn plus_one(&self) -> (r: NodeId)
        ensures
            r.val() == (self.val() + 1) % id_space(),
    {
        proof {
            reveal(NodeId::val);
        }
        let d = self.data;
        if d[0] != 0xffffffff {
            let r = NodeId { data: [d[0] + 1, d[1], d[2], d[3], d[4]] };
            proof {
                vstd::arithmetic::div_mod::lemma_small_mod(r.val(), id_space());
            }
            r
        } else if d[1] != 0xffffffff {
            let r = NodeId { data: [0, d[1] + 1, d[2], d[3], d[4]] };
            proof {
                vstd::arithmetic::div_mod::lemma_small_mod(r.val(), id_space());
            }
            r
        } else if d[2] != 0xffffffff {
            let r = NodeId { data: [0, 0, d[2] + 1, d[3], d[4]] };
            proof {
                vstd::arithmetic::div_mod::lemma_small_mod(r.val(), id_space());
            }
            r
        } else if d[3] != 0xffffffff {
            let r = NodeId { data: [0, 0, 0, d[3] + 1, d[4]] };
            proof {
                vstd::arithmetic::div_mod::lemma_small_mod(r.val(), id_space());
            }
            r
        } else if d[4] != 0xffffffff {
            let r = NodeId { data: [0, 0, 0, 0, d[4] + 1] };
            proof {
                vstd::arithmetic::div_mod::lemma_small_mod(r.val(), id_space());
            }
            r
        } else {
            let r = NodeId { data: [0, 0, 0, 0, 0] };
            proof {
                assert(self.val() + 1 == id_space());
                vstd::arithmetic::div_mod::lemma_mod_self_0(id_space() as int);
            }
            r
        }
    }
    /// Floor of half the value, by a word-wise right shift: the low bit of
    /// each more significant word is carried into the high bit of the next
    /// less significant one.
    fn half(&self) -> (r: NodeId)
        ensures
            r.val() == self.val() / 2,
    {
        let d = self.data;
        let h0 = halve_word(d[0], d[1]);
        let h1 = halve_word(d[1], d[2]);
        let h2 = halve_word(d[2], d[3]);
        let h3 = halve_word(d[3], d[4]);
        let h4 = d[4] >> 1u32;
        let r = NodeId { data: [h0, h1, h2, h3, h4] };
        proof {
            reveal(NodeId::val);
            let x = d[4];
            assert(x >> 1u32 == x / 2) by (bit_vector);
            assert(r.val() * 2 + self.data[0] % 2 == self.val());
            vstd::arithmetic::div_mod::lemma_fundamental_div_mod_converse(
                self.val() as int,
                2,
                r.val() as int,
                (self.data[0] % 2) as int,
            );
        }
        r
    }

    /// `floor((self + other) / 2)`, computed without a 161-bit intermediate:
    /// the two values are halved independently and added back together with
    /// a carry recovering the lost pair of low bits.
    #[verifier::rlimit(100)]
    pub fn midpoint(&self, other: NodeId) -> (r: NodeId)
        ensures
            r.val() == (self.val() + other.val()) / 2,
    {
        let a = self.half();
        let b = other.half();
        let x0 = self.data[0];
        let y0 = other.data[0];
        let c0: u32 = x0 & y0 & 1;
        proof {
            lemma_parity(*self);
            lemma_parity(other);
            assert(x0 & y0 & 1 == (x0 % 2) * (y0 % 2)) by (bit_vector);
            assert(x0 & y0 & 1 <= 1) by (bit_vector);
        }
        let (o0, c1) = add_word(a.data[0], b.data[0], c0 as u64);
        let (o1, c2) = add_word(a.data[1], b.data[1], c1);
        let (o2, c3) = add_word(a.data[2], b.data[2], c2);
        let (o3, c4) = add_word(a.data[3], b.data[3], c3);
        let (o4, c5) = add_word(a.data[4], b.data[4], c4);
        let r = NodeId { data: [o0, o1, o2, o3, o4] };
        proof {
            lemma_carry_chain(a, b, r, c0, c1, c2, c3, c4, c5);
            lemma_val_bound(*self);
            lemma_val_bound(other);
            lemma_mid_value(self.val(), other.val(), c0 as nat, c5 as nat, r.val());
        }
        r
    }

    /// The Hamming weight of `self XOR other`: the number of differing bits.
    pub fn distance(&self, other: NodeId) -> (r: u32)
        ensures
            r == hamming_distance(*self, other),
    {
        count_one_bits(self.data[0] ^ other.data[0]) + count_one_bits(self.data[1] ^ other.data[1])
            + count_one_bits(self.data[2] ^ other.data[2]) + count_one_bits(
            self.data[3] ^ other.data[3],
        ) + count_one_bits(self.data[4] ^ other.data[4])
    }

    /// The XOR closeness metric: `self XOR other` read as a 160-bit number.
    pub fn xor_distance(&self, other: NodeId) -> (r: NodeId)
        ensures
            r == xor_id(*self, other),
    {
        NodeId {
            data: [
                self.data[0] ^ other.data[0],
                self.data[1] ^ other.data[1],
                self.data[2] ^ other.data[2],
                self.data[3] ^ other.data[3],
                self.data[4] ^ other.data[4],
            ],
        }
    }

    /// Numeric comparison over the full 160-bit magnitude, most significant
    /// word first.
    pub fn lt(&self, other: &NodeId) -> (r: bool)
        ensures
            r == (self.val() < other.val()),
    {
        proof {
            reveal(NodeId::val);
        }
        if self.data[4] != other.data[4] {
            self.data[4] < other.data[4]
        } else if self.data[3] != other.data[3] {
            self.data[3] < other.data[3]
        } else if self.data[2] != other.data[2] {
            self.data[2] < other.data[2]
        } else if self.data[1] != other.data[1] {
            self.data[1] < other.data[1]
        } else {
            self.data[0] < other.data[0]
        }
    }

    pub fn le(&self, other: &NodeId) -> (r: bool)
        ensures
            r == (self.val() <= other.val()),
    {
        !other.lt(self)
    }

    /// Word-wise equality, which by uniqueness of base-2^32 digits decides
    /// equality of the numeric values.
    pub fn same_id(&self, other: &NodeId) -> (r: bool)
        ensures
            r == (self.val() == other.val()),
            r == (*self == *other),
    {
        proof {
            reveal(NodeId::val);
            lemma_val_injective(*self, *other);
        }
        self.data[0] == other.data[0] && self.data[1] == other.data[1] && self.data[2]
            == other.data[2] && self.data[3] == other.data[3] && self.data[4] == other.data[4]
    }
}

/// `a XOR b`, word by word, as a specification-level identifier.
pub open spec fn xor_id(a: NodeId, b: NodeId) -> NodeId {
    NodeId {
        data: [
            a.data[0] ^ b.data[0],
            a.data[1] ^ b.data[1],
            a.data[2] ^ b.data[2],
            a.data[3] ^ b.data[3],
            a.data[4] ^ b.data[4],
        ],
    }
}

/// The number of one bits in the binary representation of `n`.
pub open spec fn pop_count(n: nat) -> nat
    decreases n,
{
    if n == 0 {
        0
    } else {
        n % 2 + pop_count(n / 2)
    }
}

/// The number of differing bits between `a` and `b`.
pub open spec fn hamming_distance(a: NodeId, b: NodeId) -> nat {
    pop_count((a.data[0] ^ b.data[0]) as nat) + pop_count((a.data[1] ^ b.data[1]) as nat)
        + pop_count((a.data[2] ^ b.data[2]) as nat) + pop_count((a.data[3] ^ b.data[3]) as nat)
        + pop_count((a.data[4] ^ b.data[4]) as nat)
}

/// Two identifiers with the same numeric value have the same words.
pub proof fn lemma_val_injective(a: NodeId, b: NodeId)
    ensures
        (a.val() == b.val()) == (a == b),
{
    if a.val() == b.val() {
        lemma_word_peel(a);
        lemma_word_peel(b);
        assert(a.data =~= b.data);
    }
}

/// Each word of an identifier is a base-2^32 digit of its value.
proof fn lemma_word_peel(a: NodeId)
    ensures
        a.data[0] == a.val() % 0x100000000,
        a.data[1] == (a.val() / 0x100000000) % 0x100000000,
        a.data[2] == (a.val() / 0x10000000000000000nat) % 0x100000000,
        a.data[3] == (a.val() / 0x1000000000000000000000000nat) % 0x100000000,
        a.data[4] == a.val() / 0x100000000000000000000000000000000nat,
{
    reveal(NodeId::val);
    let v = a.val() as int;
    let d0 = a.data[0] as int;
    let d1 = a.data[1] as int;
    let d2 = a.data[2] as int;
    let d3 = a.data[3] as int;
    let d4 = a.data[4] as int;
    let w = 0x100000000int;
    vstd::arithmetic::div_mod::lemma_fundamental_div_mod_converse(
        v,
        w,
        d1 + d2 * w + d3 * w * w + d4 * w * w * w,
        d0,
    );
    let v1 = d1 + d2 * w + d3 * w * w + d4 * w * w * w;
    vstd::arithmetic::div_mod::lemma_fundamental_div_mod_converse(
        v1,
        w,
        d2 + d3 * w + d4 * w * w,
        d1,
    );
    let v2 = d2 + d3 * w + d4 * w * w;
    vstd::arithmetic::div_mod::lemma_fundamental_div_mod_converse(v2, w, d3 + d4 * w, d2);
    let v3 = d3 + d4 * w;
    vstd::arithmetic::div_mod::lemma_fundamental_div_mod_converse(v3, w, d4, d3);
    assert(a.val() / 0x100000000 == v1);
    assert(v1 / w == v2);
    assert(v2 / w == v3);
    assert(a.val() / 0x10000000000000000nat == v2) by {
        vstd::arithmetic::div_mod::lemma_div_denominator(v, w, w);
    }
    assert(a.val() / 0x1000000000000000000000000nat == v3) by {
        vstd::arithmetic::div_mod::lemma_div_denominator(v, w * w, w);
    }
    assert(a.val() / 0x100000000000000000000000000000000nat == d4) by {
        vstd::arithmetic::div_mod::lemma_div_denominator(v, w * w * w, w);
    }
}

/// One word of the shift in `NodeId::half`.
fn halve_word(w: u32, wn: u32) -> (r: u32)
    ensures
        r == w / 2 + (wn % 2) * 0x80000000,
{
    let r = (w >> 1u32) | ((wn & 1) << 31u32);
    proof {
        assert((w >> 1u32) | ((wn & 1) << 31u32) == w / 2 + (wn % 2) * 0x80000000) by (bit_vector);
    }
    r
}

/// One word of the carrying addition in `NodeId::midpoint`: returns the low
/// 32 bits of `a + b + c` and the outgoing carry.
fn add_word(a: u32, b: u32, c: u64) -> (r: (u32, u64))
    requires
        c <= 1,
    ensures
        r.0 + r.1 * 0x100000000 == a + b + c,
        r.1 <= 1,
{
    let s: u64 = a as u64 + b as u64 + c;
    let o: u32 = (s & 0xffffffff) as u32;
    let carry: u64 = s >> 32u64;
    proof {
        assert((s & 0xffffffff) + (s >> 32u64) * 0x100000000 == s) by (bit_vector);
        assert(s & 0xffffffff <= 0xffffffff) by (bit_vector);
        assert(s < 0x200000000 ==> s >> 32u64 <= 1) by (bit_vector);
    }
    (o, carry)
}

/// The word-wise sums with carries add up, in value, to the sum of the
/// values: the defining equation of the five-word carrying addition.
proof fn lemma_carry_chain(
    a: NodeId,
    b: NodeId,
    r: NodeId,
    c0: u32,
    c1: u64,
    c2: u64,
    c3: u64,
    c4: u64,
    c5: u64,
)
    requires
        r.data[0] + c1 * 0x100000000 == a.data[0] + b.data[0] + c0,
        r.data[1] + c2 * 0x100000000 == a.data[1] + b.data[1] + c1,
        r.data[2] + c3 * 0x100000000 == a.data[2] + b.data[2] + c2,
        r.data[3] + c4 * 0x100000000 == a.data[3] + b.data[3] + c3,
        r.data[4] + c5 * 0x100000000 == a.data[4] + b.data[4] + c4,
    ensures
        r.val() + c5 * id_space() == a.val() + b.val() + c0,
{
    reveal(NodeId::val);
}

/// Every identifier value fits in 160 bits.
proof fn lemma_val_bound(a: NodeId)
    ensures
        a.val() < id_space(),
{
    reveal(NodeId::val);
}

/// The low bit of the least significant word is the parity of the value.
proof fn lemma_parity(a: NodeId)
    ensures
        a.val() % 2 == a.data[0] % 2,
{
    reveal(NodeId::val);
    let v = a.val() as int;
    let d0 = a.data[0] as int;
    let q = d0 / 2 + a.data[1] * 0x80000000int + a.data[2] * 0x8000000000000000int
        + a.data[3] * 0x800000000000000000000000int
        + a.data[4] * 0x80000000000000000000000000000000int;
    vstd::arithmetic::div_mod::lemma_fundamental_div_mod_converse(v, 2, q, d0 % 2);
}

/// Puts the carrying addition of the two halves together: the result is the
/// floor of the average of the two values.
proof fn lemma_mid_value(sv: nat, ov: nat, c0: nat, c5: nat, rv: nat)
    requires
        rv + c5 * id_space() == sv / 2 + ov / 2 + c0,
        c0 == (sv % 2) * (ov % 2),
        c0 <= 1,
        sv < id_space(),
        ov < id_space(),
    ensures
        rv == (sv + ov) / 2,
{
    assert(sv == 2 * (sv / 2) + sv % 2);
    assert(ov == 2 * (ov / 2) + ov % 2);
    assert(sv / 2 + ov / 2 + c0 < id_space());
    assert(c5 == 0);
    lemma_floor_avg(sv, ov);
}

/// Floor of the average in terms of the two halves and the two low bits.
proof fn lemma_floor_avg(a: nat, b: nat)
    ensures
        (a + b) / 2 == a / 2 + b / 2 + (a % 2) * (b % 2),
{
    let qa = a / 2;
    let qb = b / 2;
    if a % 2 == 1 && b % 2 == 1 {
        vstd::arithmetic::div_mod::lemma_fundamental_div_mod_converse(
            (a + b) as int,
            2,
            (qa + qb + 1) as int,
            0,
        );
    } else if a % 2 == 1 || b % 2 == 1 {
        vstd::arithmetic::div_mod::lemma_fundamental_div_mod_converse(
            (a + b) as int,
            2,
            (qa + qb) as int,
            1,
        );
    } else {
        vstd::arithmetic::div_mod::lemma_fundamental_div_mod_converse(
            (a + b) as int,
            2,
            (qa + qb) as int,
            0,
        );
    }
}

/// Counts the one bits of a 32-bit word.
fn count_one_bits(x: u32) -> (c: u32)
    ensures
        c == pop_count(x as nat),
        c <= 32,
{
    let mut v = x;
    let mut c: u32 = 0;
    let mut i: u32 = 0;
    proof {
        lemma_p2_32();
    }
    while i < 32
        invariant
            c <= i <= 32,
            c + pop_count(v as nat) == pop_count(x as nat),
            (v as nat) < p2((32 - i) as nat),
        decreases 32 - i,
    {
        c = c + v % 2;
        v = v / 2;
        i = i + 1;
    }
    c
}

/// 2^k.
pub open spec fn p2(k: nat) -> nat
    decreases k,
{
    if k == 0 {
        1
    } else {
        2 * p2((k - 1) as nat)
    }
}

proof fn lemma_p2_32()
    ensures
        p2(32) == 0x100000000,
{
    reveal_with_fuel(p2, 33);
}


/// A single bit-vector fact family about XOR on one word.
proof fn lemma_xor_word(x: u32, y: u32)
    by (bit_vector)
    ensures
        x ^ y == y ^ x,
        (x ^ y == 0) <==> x == y,
        x ^ x == 0,
{
}

/// Law: the midpoint of two identifier values lies between them, inclusive,
/// and the midpoint of a value with itself is that value.
pub proof fn lemma_midpoint_between(a: NodeId, b: NodeId)
    ensures
        (a.val() + b.val()) / 2 >= (if a.val() <= b.val() { a.val() } else { b.val() }),
        (a.val() + b.val()) / 2 <= (if a.val() <= b.val() { b.val() } else { a.val() }),
        (a.val() + a.val()) / 2 == a.val(),
{
    let s = a.val() + b.val();
    assert(s == 2 * (s / 2) + s % 2);
    assert((a.val() + a.val()) == 2 * a.val());
    vstd::arithmetic::div_mod::lemma_fundamental_div_mod_converse(
        (a.val() + a.val()) as int,
        2,
        a.val() as int,
        0,
    );
}

/// Law: the successor of an identifier is strictly greater, except at the
/// maximum value, whose successor wraps to zero.
pub proof fn lemma_successor_increases(a: NodeId)
    ensures
        a.val() < max_id_val() ==> (a.val() + 1) % id_space() > a.val(),
        a.val() == max_id_val() ==> (a.val() + 1) % id_space() == 0,
{
    lemma_val_bound(a);
    if a.val() < max_id_val() {
        vstd::arithmetic::div_mod::lemma_small_mod(a.val() + 1, id_space());
    } else {
        vstd::arithmetic::div_mod::lemma_mod_self_0(id_space() as int);
    }
}

/// Law: XOR distance is zero exactly on equal identifiers, and symmetric.
pub proof fn lemma_xor_distance_laws(a: NodeId, b: NodeId)
    ensures
        xor_id(a, a).val() == 0,
        xor_id(a, b) == xor_id(b, a),
        (xor_id(a, b).val() == 0) <==> (a == b),
{
    reveal(NodeId::val);
    lemma_xor_word(a.data[0], b.data[0]);
    lemma_xor_word(a.data[1], b.data[1]);
    lemma_xor_word(a.data[2], b.data[2]);
    lemma_xor_word(a.data[3], b.data[3]);
    lemma_xor_word(a.data[4], b.data[4]);
    lemma_xor_word(a.data[0], a.data[0]);
    lemma_xor_word(a.data[1], a.data[1]);
    lemma_xor_word(a.data[2], a.data[2]);
    lemma_xor_word(a.data[3], a.data[3]);
    lemma_xor_word(a.data[4], a.data[4]);
    assert(xor_id(a, b).data =~= xor_id(b, a).data);
    if xor_id(a, b).val() == 0 {
        assert(a.data =~= b.data);
    }
}

/// A remote peer: an identifier together with its network location.
#[derive(Clone, Copy, PartialEq, Eq, Debug)]
pub struct Node {
    pub ip_address: [u8; 4],
    pub port: u16,
    pub id: NodeId,
}

impl Node {
    /// The Hamming weight of the XOR of the two peers' identifiers.
    pub fn distance(&self, other: Node) -> (r: u32)
        ensures
            r == hamming_distance(self.id, other.id),
    {
        self.id.distance(other.id)
    }
}

/// The outcome of trying to place a contact in a bucket that may be full.
#[derive(Clone, Copy, PartialEq, Eq, Structural, Debug)]
pub enum InsertOutcome {
    Inserted,
    Full,
}

/// A capacity-bounded set of contacts whose identifiers fall in one
/// contiguous sub-range of the identifier space, ordered from least to most
/// recently seen.
pub struct KBucket {
    pub k_size: u32,
    pub range: (NodeId, NodeId),
    pub nodes: Vec<Node>,
    pub depth: u32,
}

/// Every element of `child` occurs in `parent`.
pub open spec fn drawn_from(child: Seq<Node>, parent: Seq<Node>) -> bool {
    forall|t: int| #![trigger child[t]] 0 <= t < child.len() ==> parent.contains(child[t])
}

impl KBucket {
    pub open spec fn low(self) -> nat {
        self.range.0.val()
    }

    pub open spec fn high(self) -> nat {
        self.range.1.val()
    }

    pub open spec fn in_range(self, v: nat) -> bool {
        self.low() <= v <= self.high()
    }

    pub open spec fn has_id(self, v: nat) -> bool {
        exists|i: int| 0 <= i < self.nodes@.len() && self.nodes@[i].id.val() == v
    }

    /// The bucket invariant: a non-empty range, a positive capacity bound
    /// that the contact list respects, every contact inside the range, and
    /// no two contacts with the same identifier.
    pub open spec fn wf(self) -> bool {
        &&& self.low() <= self.high()
        &&& 1 <= self.k_size
        &&& self.nodes@.len() <= self.k_size
        &&& forall|i: int| 0 <= i < self.nodes@.len() ==> self.in_range(self.nodes@[i].id.val())
        &&& forall|i: int, j: int|
            0 <= i < j < self.nodes@.len() ==> self.nodes@[i].id.val() != self.nodes@[j].id.val()
    }

    /// Whether `id` falls in this bucket's range.
    pub fn contains(&self, id: &NodeId) -> (r: bool)
        ensures
            r == self.in_range(id.val()),
    {
        self.range.0.le(id) && id.le(&self.range.1)
    }

    /// Whether the peer's identifier falls in this bucket's range.
    pub fn has_in_range(&self, node: Node) -> (r: bool)
        ensures
            r == self.in_range(node.id.val()),
    {
        self.contains(&node.id)
    }

    /// How many times the bucket's range has been halved since the table
    /// was created.
    pub fn depth(&self) -> (r: u32)
        ensures
            r == self.depth,
    {
        self.depth
    }

    /// The least recently seen contact, if any.
    pub fn oldest_contact(&self) -> (r: Option<Node>)
        ensures
            self.nodes@.len() == 0 ==> r is None,
            self.nodes@.len() > 0 ==> r == Some(self.nodes@[0]),
    {
        if self.nodes.len() > 0 {
            Some(self.nodes[0])
        } else {
            None
        }
    }

    /// Places a contact, updates it if its identifier is already present
    /// (marking it most recently seen), or reports the bucket `Full`.
    #[verifier::loop_isolation(false)]
    pub fn try_insert(&mut self, node: Node) -> (r: InsertOutcome)
        requires
            old(self).wf(),
            old(self).in_range(node.id.val()),
        ensures
            final(self).wf(),
            final(self).range == old(self).range,
            final(self).k_size == old(self).k_size,
            final(self).depth == old(self).depth,
            (r == InsertOutcome::Inserted) == (old(self).has_id(node.id.val())
                || old(self).nodes@.len() < old(self).k_size),
            old(self).has_id(node.id.val()) ==> exists|j: int|
                0 <= j < old(self).nodes@.len() && old(self).nodes@[j].id.val() == node.id.val()
                    && final(self).nodes@ == old(self).nodes@.remove(j).push(node),
            !old(self).has_id(node.id.val()) && old(self).nodes@.len() < old(self).k_size
                ==> final(self).nodes@ == old(self).nodes@.push(node),
            !old(self).has_id(node.id.val()) && old(self).nodes@.len() >= old(self).k_size
                ==> final(self).nodes@ == old(self).nodes@ && r == InsertOutcome::Full,
    {
        let ghost orig = *self;
        let mut j: usize = 0;
        while j < self.nodes.len()
            invariant
                *self == orig,
                j <= self.nodes@.len(),
                forall|t: int| 0 <= t < j ==> self.nodes@[t].id.val() != node.id.val(),
            decreases self.nodes@.len() - j,
        {
            if self.nodes[j].id.same_id(&node.id) {
                let _ = self.nodes.remove(j);
                self.nodes.push(node);
                proof {
                    let jj = j as int;
                    let orig_s = orig.nodes@;
                    let removed = orig_s.remove(jj);
                    assert(orig_s[jj].id.val() == node.id.val());
                    assert(self.nodes@ == removed.push(node));
                    assert(removed.len() == orig_s.len() - 1);
                    assert forall|t: int| 0 <= t < removed.len() implies removed[t] == (if t < jj {
                        orig_s[t]
                    } else {
                        orig_s[t + 1]
                    }) by {}
                    assert forall|t: int| 0 <= t < removed.len() implies self.nodes@[t] == removed[t]
                        by {}
                    assert(self.nodes@[removed.len() as int] == node);
                    assert forall|t: int| 0 <= t < self.nodes@.len() implies self.in_range(
                        self.nodes@[t].id.val(),
                    ) by {
                        if t < removed.len() {
                            if t < jj {
                                assert(self.nodes@[t] == orig_s[t]);
                            } else {
                                assert(self.nodes@[t] == orig_s[t + 1]);
                            }
                        }
                    }
                    assert forall|t1: int, t2: int|
                        0 <= t1 < t2 < self.nodes@.len() implies self.nodes@[t1].id.val()
                        != self.nodes@[t2].id.val() by {
                        if t2 < removed.len() {
                            let u1 = if t1 < jj { t1 } else { t1 + 1 };
                            let u2 = if t2 < jj { t2 } else { t2 + 1 };
                            assert(self.nodes@[t1] == orig_s[u1]);
                            assert(self.nodes@[t2] == orig_s[u2]);
                        } else {
                            let u1 = if t1 < jj { t1 } else { t1 + 1 };
                            assert(self.nodes@[t1] == orig_s[u1]);
                            assert(u1 != jj);
                            assert(orig_s[u1].id.val() != orig_s[jj].id.val());
                        }
                    }
                }
                return InsertOutcome::Inserted;
            }
            j += 1;
        }
        if self.nodes.len() < self.k_size as usize {
            self.nodes.push(node);
            return InsertOutcome::Inserted;
        }
        InsertOutcome::Full
    }

    /// Whether some contact in the bucket has this identifier.
    #[verifier::loop_isolation(false)]
    pub fn contains_id(&self, id: &NodeId) -> (r: bool)
        ensures
            r == self.has_id(id.val()),
    {
        let mut j: usize = 0;
        while j < self.nodes.len()
            invariant
                j <= self.nodes@.len(),
                forall|t: int| 0 <= t < j ==> self.nodes@[t].id.val() != id.val(),
            decreases self.nodes@.len() - j,
        {
            if self.nodes[j].id.same_id(id) {
                return true;
            }
            j += 1;
        }
        false
    }

    /// Evicts the least recently seen contact and appends `node` as the
    /// most recently seen one.
    pub fn replace_oldest(&mut self, node: Node)
        requires
            old(self).wf(),
            old(self).in_range(node.id.val()),
            old(self).nodes@.len() >= 1,
            !old(self).has_id(node.id.val()),
        ensures
            final(self).wf(),
            final(self).range == old(self).range,
            final(self).k_size == old(self).k_size,
            final(self).depth == old(self).depth,
            final(self).nodes@ == old(self).nodes@.subrange(1, old(self).nodes@.len() as int).push(
                node,
            ),
    {
        let ghost orig = *self;
        let _ = self.nodes.remove(0);
        self.nodes.push(node);
        proof {
            let tailseq = orig.nodes@.subrange(1, orig.nodes@.len() as int);
            assert(orig.nodes@.remove(0) =~= tailseq);
            assert(self.nodes@ == tailseq.push(node));
            assert forall|t: int| 0 <= t < tailseq.len() implies self.nodes@[t] == orig.nodes@[t
                + 1] by {}
            assert(self.nodes@[self.nodes@.len() - 1] == node);
        }
    }

    /// Splits the bucket at the midpoint of its range into a low child
    /// `[low, mid]` and a high child `[mid + 1, high]`, redistributing every
    /// contact into the one child whose range contains it.
    #[verifier::rlimit(100)]
    #[verifier::loop_isolation(false)]
    pub fn split(&self) -> (r: (KBucket, KBucket))
        requires
            self.wf(),
            self.low() < self.high(),
        ensures
            r.0.wf(),
            r.1.wf(),
            r.0.k_size == self.k_size,
            r.1.k_size == self.k_size,
            r.0.depth == r.1.depth,
            r.0.low() == self.low(),
            r.0.high() == (self.low() + self.high()) / 2,
            r.1.low() == (self.low() + self.high()) / 2 + 1,
            r.1.high() == self.high(),
            r.0.nodes@.len() + r.1.nodes@.len() == self.nodes@.len(),
            drawn_from(r.0.nodes@, self.nodes@),
            drawn_from(r.1.nodes@, self.nodes@),
            forall|u: int|
                #![trigger self.nodes@[u]]
                0 <= u < self.nodes@.len() ==> (if self.nodes@[u].id.val() <= (self.low()
                    + self.high()) / 2 {
                    exists|t: int|
                        0 <= t < r.0.nodes@.len() && (#[trigger] r.0.nodes@[t]) == self.nodes@[u]
                } else {
                    exists|t: int|
                        0 <= t < r.1.nodes@.len() && (#[trigger] r.1.nodes@[t]) == self.nodes@[u]
                }),
    {
        let midpoint = self.range.0.midpoint(self.range.1);
        let ghost midval = (self.low() + self.high()) / 2;
        proof {
            lemma_midpoint_between(self.range.0, self.range.1);
            assert(self.low() + self.high() == 2 * midval + (self.low() + self.high()) % 2);
            assert(midval < self.high());
            lemma_val_bound(self.range.1);
            vstd::arithmetic::div_mod::lemma_small_mod(midval + 1, id_space());
        }
        let new_depth = if self.depth < 0xffffffff {
            self.depth + 1
        } else {
            self.depth
        };
        let mut bucket1 = KBucket {
            k_size: self.k_size,
            range: (self.range.0, midpoint),
            nodes: Vec::new(),
            depth: new_depth,
        };
        let midpoint_succ = midpoint.plus_one();
        let mut bucket2 = KBucket {
            k_size: self.k_size,
            range: (midpoint_succ, self.range.1),
            nodes: Vec::new(),
            depth: new_depth,
        };
        let mut i: usize = 0;
        while i < self.nodes.len()
            invariant
                i <= self.nodes@.len(),
                bucket1.k_size == self.k_size,
                bucket2.k_size == self.k_size,
                bucket1.range.0 == self.range.0,
                bucket1.range.1 == midpoint,
                bucket2.range.1 == self.range.1,
                bucket2.range.0 == midpoint_succ,
                bucket1.depth == new_depth,
                bucket2.depth == new_depth,
                bucket1.nodes@.len() + bucket2.nodes@.len() == i,
                forall|t: int|
                    #![trigger bucket1.nodes@[t]]
                    0 <= t < bucket1.nodes@.len() ==> self.low() <= bucket1.nodes@[t].id.val()
                        <= midval && self.nodes@.subrange(0, i as int).contains(bucket1.nodes@[t]),
                forall|t: int|
                    #![trigger bucket2.nodes@[t]]
                    0 <= t < bucket2.nodes@.len() ==> midval < bucket2.nodes@[t].id.val()
                        <= self.high() && self.nodes@.subrange(0, i as int).contains(
                        bucket2.nodes@[t],
                    ),
                forall|t1: int, t2: int|
                    0 <= t1 < t2 < bucket1.nodes@.len() ==> bucket1.nodes@[t1].id.val()
                        != bucket1.nodes@[t2].id.val(),
                forall|t1: int, t2: int|
                    0 <= t1 < t2 < bucket2.nodes@.len() ==> bucket2.nodes@[t1].id.val()
                        != bucket2.nodes@[t2].id.val(),
                forall|u: int|
                    #![trigger self.nodes@[u]]
                    0 <= u < i ==> (if self.nodes@[u].id.val() <= midval {
                        bucket1.nodes@.contains(self.nodes@[u])
                    } else {
                        bucket2.nodes@.contains(self.nodes@[u])
                    }),
            decreases self.nodes@.len() - i,
        {
            let n = self.nodes[i];
            let ghost pre = self.nodes@.subrange(0, i as int);
            let ghost post = self.nodes@.subrange(0, i as int + 1);
            proof {
                assert(post =~= pre.push(n));
                assert forall|t: int| 0 <= t < bucket1.nodes@.len() implies bucket1.nodes@[t].id.val()
                    != n.id.val() by {
                    let u = choose|u: int| 0 <= u < pre.len() && pre[u] == bucket1.nodes@[t];
                    assert(pre[u] == self.nodes@[u]);
                    assert(self.nodes@[u].id.val() != self.nodes@[i as int].id.val());
                }
                assert forall|t: int| 0 <= t < bucket2.nodes@.len() implies bucket2.nodes@[t].id.val()
                    != n.id.val() by {
                    let u = choose|u: int| 0 <= u < pre.len() && pre[u] == bucket2.nodes@[t];
                    assert(pre[u] == self.nodes@[u]);
                    assert(self.nodes@[u].id.val() != self.nodes@[i as int].id.val());
                }
                assert forall|x: Node| pre.contains(x) implies post.contains(x) by {
                    let u = choose|u: int| 0 <= u < pre.len() && pre[u] == x;
                    assert(post[u] == x);
                }
                assert(post[i as int] == n);
                assert(post.contains(n));
            }
            let ghost b1_old = bucket1.nodes@;
            let ghost b2_old = bucket2.nodes@;
            if n.id.le(&bucket1.range.1) {
                bucket1.nodes.push(n);
                proof {
                    assert(bucket1.nodes@[bucket1.nodes@.len() - 1] == n);
                    assert(bucket1.nodes@.contains(n));
                    assert forall|x: Node| b1_old.contains(x) implies bucket1.nodes@.contains(x) by {
                        let u = choose|u: int| 0 <= u < b1_old.len() && b1_old[u] == x;
                        assert(bucket1.nodes@[u] == x);
                    }
                }
            } else {
                bucket2.nodes.push(n);
                proof {
                    assert(bucket2.nodes@[bucket2.nodes@.len() - 1] == n);
                    assert(bucket2.nodes@.contains(n));
                    assert forall|x: Node| b2_old.contains(x) implies bucket2.nodes@.contains(x) by {
                        let u = choose|u: int| 0 <= u < b2_old.len() && b2_old[u] == x;
                        assert(bucket2.nodes@[u] == x);
                    }
                }
            }
            i += 1;
        }
        proof {
            assert(self.nodes@.subrange(0, i as int) =~= self.nodes@);
        }
        (bucket1, bucket2)
    }
}


/// What `RoutingTable::add` decided: the contact was placed (or refreshed),
/// or the covering bucket is full and not eligible to split, so the caller
/// must check liveness of the bucket's oldest contact and report back
/// through `resolve_eviction`.
pub enum AddResult {
    Inserted,
    NeedsPing(Node),
}

/// Some bucket in the sequence holds this exact contact.
pub open spec fn seq_has_node(bs: Seq<KBucket>, n: Node) -> bool {
    exists|i: int| 0 <= i < bs.len() && (#[trigger] bs[i]).nodes@.contains(n)
}

/// Some bucket in the sequence holds a contact with this identifier value.
pub open spec fn seq_has_id(bs: Seq<KBucket>, v: nat) -> bool {
    exists|i: int| 0 <= i < bs.len() && (#[trigger] bs[i]).has_id(v)
}

/// An ordered sequence of k-buckets whose ranges tile the whole identifier
/// space, together with the local node and the split policy configuration.
pub struct RoutingTable {
    pub node: Node,
    pub buckets: Vec<KBucket>,
    pub k_size: u32,
    pub max_split_depth: u32,
}

impl RoutingTable {
    /// The table invariant: at least one bucket; ranges are sorted,
    /// contiguous and gap-free, starting at zero and ending at the maximum
    /// identifier; every bucket is well formed with the configured capacity.
    pub open spec fn wf(self) -> bool {
        &&& self.buckets@.len() >= 1
        &&& self.k_size >= 1
        &&& self.buckets@[0].low() == 0
        &&& self.buckets@[self.buckets@.len() - 1].high() == max_id_val()
        &&& forall|i: int|
            0 <= i < self.buckets@.len() ==> (#[trigger] self.buckets@[i]).wf()
        &&& forall|i: int|
            0 <= i < self.buckets@.len() ==> (#[trigger] self.buckets@[i]).k_size == self.k_size
        &&& forall|i: int|
            0 <= i < self.buckets@.len() - 1 ==> (#[trigger] self.buckets@[i]).high() + 1
                == self.buckets@[i + 1].low()
    }

    /// Some bucket holds this exact contact.
    #[verifier::inline]
    pub open spec fn has_node(self, n: Node) -> bool {
        seq_has_node(self.buckets@, n)
    }

    /// Some bucket holds a contact with this identifier value.
    #[verifier::inline]
    pub open spec fn has_id(self, v: nat) -> bool {
        seq_has_id(self.buckets@, v)
    }

    /// A fresh table: one empty bucket spanning the entire identifier space.
    pub fn new(node: Node, k_size: u32, max_split_depth: u32) -> (r: RoutingTable)
        requires
            k_size >= 1,
        ensures
            r.wf(),
            r.node == node,
            r.k_size == k_size,
            r.max_split_depth == max_split_depth,
            r.buckets@.len() == 1,
            r.buckets@[0].nodes@.len() == 0,
    {
        let low = NodeId::new(0, 0, 0, 0, 0);
        let high = NodeId::new(0xffffffff, 0xffffffff, 0xffffffff, 0xffffffff, 0xffffffff);
        proof {
            reveal(NodeId::val);
            assert(low.val() == 0);
            assert(high.val() == max_id_val());
        }
        let bucket = KBucket { k_size, range: (low, high), nodes: Vec::new(), depth: 0 };
        let mut buckets: Vec<KBucket> = Vec::new();
        buckets.push(bucket);
        RoutingTable { node, buckets, k_size, max_split_depth }
    }

    /// The index of the unique bucket whose range covers `id`.
    #[verifier::loop_isolation(false)]
    pub fn find_bucket_index(&self, id: &NodeId) -> (r: usize)
        requires
            self.wf(),
        ensures
            r < self.buckets@.len(),
            self.buckets@[r as int].in_range(id.val()),
    {
        let mut i: usize = 0;
        while i < self.buckets.len()
            invariant
                i <= self.buckets@.len(),
                forall|j: int| 0 <= j < i ==> (#[trigger] self.buckets@[j]).high() < id.val(),
            decreases self.buckets@.len() - i,
        {
            if id.le(&self.buckets[i].range.1) {
                proof {
                    if i > 0 {
                        assert(self.buckets@[i as int - 1].high() + 1 == self.buckets@[
                            i as int].low());
                    }
                }
                return i;
            }
            i += 1;
        }
        proof {
            lemma_val_bound(*id);
            assert(self.buckets@[self.buckets@.len() - 1].high() < id.val());
            assert(false);
        }
        0
    }

    /// The index of the bucket covering the peer's identifier.
    pub fn get_bucket_for(&self, node: &Node) -> (r: usize)
        requires
            self.wf(),
        ensures
            r < self.buckets@.len(),
            self.buckets@[r as int].in_range(node.id.val()),
    {
        self.find_bucket_index(&node.id)
    }

    /// Replaces the bucket at `index` by its two halves, keeping the
    /// table's tiling invariant and exactly its contents.
    #[verifier::rlimit(100)]
    #[verifier::loop_isolation(false)]
    pub fn split_bucket(&mut self, index: usize)
        requires
            old(self).wf(),
            index < old(self).buckets@.len(),
            old(self).buckets@[index as int].low() < old(self).buckets@[index as int].high(),
        ensures
            final(self).wf(),
            final(self).node == old(self).node,
            final(self).k_size == old(self).k_size,
            final(self).max_split_depth == old(self).max_split_depth,
            final(self).buckets@.len() == old(self).buckets@.len() + 1,
            forall|j: int| 0 <= j < index ==> final(self).buckets@[j] == old(self).buckets@[j],
            forall|j: int|
                index + 1 < j < final(self).buckets@.len() ==> final(self).buckets@[j] == old(self).buckets@[j - 1],
            final(self).buckets@[index as int].low() == old(self).buckets@[index as int].low(),
            final(self).buckets@[index as int].high() == (old(self).buckets@[index as int].low()
                + old(self).buckets@[index as int].high()) / 2,
            final(self).buckets@[index as int + 1].low() == final(self).buckets@[
                index as int].high() + 1,
            final(self).buckets@[index as int + 1].high() == old(self).buckets@[
                index as int].high(),
            forall|n: Node| final(self).has_node(n) <==> old(self).has_node(n),
            forall|v: nat| final(self).has_id(v) <==> old(self).has_id(v),
    {
        let (bucket1, bucket2) = self.buckets[index].split();
        self.buckets[index] = bucket1;
        let n_buckets = self.buckets.len();
        assert(index < n_buckets);
        self.buckets.insert(index + 1, bucket2);
        proof {
            let idx = index as int;
            let olds = old(self).buckets@;
            let news = self.buckets@;
            let parent = olds[idx];
            assert(news == olds.update(idx, bucket1).insert(idx + 1, bucket2));
            assert forall|j: int| 0 <= j < news.len() implies news[j] == (if j < idx {
                olds[j]
            } else if j == idx {
                bucket1
            } else if j == idx + 1 {
                bucket2
            } else {
                olds[j - 1]
            }) by {}
            assert forall|n: Node| final(self).has_node(n) implies old(self).has_node(n) by {
                let i = choose|i: int| 0 <= i < news.len() && (#[trigger] news[i]).nodes@.contains(n);
                if i == idx {
                    let t = choose|t: int| 0 <= t < bucket1.nodes@.len() && bucket1.nodes@[t] == n;
                    assert(parent.nodes@.contains(bucket1.nodes@[t]));
                    assert(olds[idx].nodes@.contains(n));
                } else if i == idx + 1 {
                    let t = choose|t: int| 0 <= t < bucket2.nodes@.len() && bucket2.nodes@[t] == n;
                    assert(parent.nodes@.contains(bucket2.nodes@[t]));
                    assert(olds[idx].nodes@.contains(n));
                } else {
                    let oi = if i < idx { i } else { i - 1 };
                    assert(olds[oi].nodes@.contains(n));
                }
            }
            assert forall|n: Node| old(self).has_node(n) implies final(self).has_node(n) by {
                let i = choose|i: int| 0 <= i < olds.len() && (#[trigger] olds[i]).nodes@.contains(n);
                if i == idx {
                    let t = choose|t: int| 0 <= t < parent.nodes@.len() && parent.nodes@[t] == n;
                    if parent.nodes@[t].id.val() <= (parent.low() + parent.high()) / 2 {
                        assert(bucket1.nodes@.contains(n));
                        assert(news[idx].nodes@.contains(n));
                    } else {
                        assert(bucket2.nodes@.contains(n));
                        assert(news[idx + 1].nodes@.contains(n));
                    }
                } else {
                    let ni = if i < idx { i } else { i + 1 };
                    assert(news[ni].nodes@.contains(n));
                }
            }
            assert forall|v: nat| final(self).has_id(v) implies old(self).has_id(v) by {
                let i = choose|i: int| 0 <= i < news.len() && (#[trigger] news[i]).has_id(v);
                let t = choose|t: int| 0 <= t < news[i].nodes@.len() && news[i].nodes@[t].id.val() == v;
                let n = news[i].nodes@[t];
                assert(news[i].nodes@.contains(n));
                assert(final(self).has_node(n));
                assert(old(self).has_node(n));
                let oi = choose|oi: int|
                    0 <= oi < olds.len() && (#[trigger] olds[oi]).nodes@.contains(n);
                let ot = choose|ot: int| 0 <= ot < olds[oi].nodes@.len() && olds[oi].nodes@[ot] == n;
                assert(olds[oi].has_id(v));
            }
            assert forall|v: nat| old(self).has_id(v) implies final(self).has_id(v) by {
                let i = choose|i: int| 0 <= i < olds.len() && (#[trigger] olds[i]).has_id(v);
                let t = choose|t: int| 0 <= t < olds[i].nodes@.len() && olds[i].nodes@[t].id.val() == v;
                let n = olds[i].nodes@[t];
                assert(olds[i].nodes@.contains(n));
                assert(old(self).has_node(n));
                assert(final(self).has_node(n));
                let ni = choose|ni: int|
                    0 <= ni < news.len() && (#[trigger] news[ni]).nodes@.contains(n);
                let nt = choose|nt: int| 0 <= nt < news[ni].nodes@.len() && news[ni].nodes@[nt] == n;
                assert(news[ni].has_id(v));
            }
        }
    }

    /// Buckets earlier in the list cover strictly smaller identifiers.
    pub proof fn lemma_bucket_order(self, i: int, j: int)
        requires
            self.wf(),
            0 <= i < j < self.buckets@.len(),
        ensures
            self.buckets@[i].high() < self.buckets@[j].low(),
        decreases j - i,
    {
        if j == i + 1 {
            assert(self.buckets@[i].high() + 1 == self.buckets@[j].low());
        } else {
            self.lemma_bucket_order(i, j - 1);
            assert(self.buckets@[j - 1].high() + 1 == self.buckets@[j].low());
            assert(self.buckets@[j - 1].wf());
        }
    }

    /// Only the covering bucket can hold an identifier in its range.
    pub proof fn lemma_unique_cover(self, v: nat, i: int, j: int)
        requires
            self.wf(),
            0 <= i < self.buckets@.len(),
            0 <= j < self.buckets@.len(),
            self.buckets@[i].in_range(v),
            i != j,
        ensures
            !self.buckets@[j].has_id(v),
    {
        if i < j {
            self.lemma_bucket_order(i, j);
        } else {
            self.lemma_bucket_order(j, i);
        }
        if self.buckets@[j].has_id(v) {
            let t = choose|t: int|
                0 <= t < self.buckets@[j].nodes@.len() && self.buckets@[j].nodes@[t].id.val() == v;
            assert(self.buckets@[j].in_range(v));
        }
    }

    /// Adds a live contact.  The contact is placed or refreshed in its
    /// covering bucket; a full bucket is split while it contains the local
    /// identifier or sits within the configured split depth; otherwise the
    /// caller is handed the bucket's oldest contact to ping, to be resolved
    /// through `resolve_eviction`.
    #[verifier::rlimit(100)]
    #[verifier::loop_isolation(false)]
    pub fn add(&mut self, node: Node) -> (r: AddResult)
        requires
            old(self).wf(),
        ensures
            final(self).wf(),
            final(self).node == old(self).node,
            final(self).k_size == old(self).k_size,
            final(self).max_split_depth == old(self).max_split_depth,
            forall|n: Node|
                old(self).has_node(n) && n.id.val() != node.id.val() ==> final(self).has_node(n),
            forall|n: Node|
                final(self).has_node(n) && n.id.val() != node.id.val() ==> old(self).has_node(n),
            r is Inserted ==> final(self).has_node(node),
            r matches AddResult::NeedsPing(oldest) ==> !old(self).has_id(node.id.val())
                && !final(self).has_id(node.id.val()) && final(self).has_node(oldest)
                && (forall|n: Node| final(self).has_node(n) <==> old(self).has_node(n)),
    {
        let local_id = self.node.id;
        let mut idx = self.find_bucket_index(&node.id);
        loop
            invariant
                self.wf(),
                idx < self.buckets@.len(),
                self.buckets@[idx as int].in_range(node.id.val()),
                self.node == old(self).node,
                self.k_size == old(self).k_size,
                self.max_split_depth == old(self).max_split_depth,
                local_id == old(self).node.id,
                forall|n: Node| self.has_node(n) <==> old(self).has_node(n),
            decreases self.buckets@[idx as int].high() - self.buckets@[idx as int].low(),
        {
            let ghost pre_table = *self;
            let outcome = self.try_insert_at(idx, node);
            match outcome {
                InsertOutcome::Inserted => {
                    return AddResult::Inserted;
                },
                InsertOutcome::Full => {
                    proof {
                        lemma_same_nodes(pre_table.buckets@, self.buckets@);
                    }
                    let eligible = self.buckets[idx].contains(&local_id) || self.buckets[idx].depth()
                        < self.max_split_depth;
                    let splittable = self.buckets[idx].range.0.lt(&self.buckets[idx].range.1);
                    if eligible && splittable {
                        self.split_bucket(idx);
                        let blen = self.buckets.len();
                        if self.buckets[idx].contains(&node.id) {
                        } else {
                            proof {
                                assert(idx as int + 1 < blen as int);
                                assert(self.buckets@[idx as int + 1].in_range(node.id.val()));
                            }
                            idx = idx + 1;
                        }
                    } else {
                        let oldest = self.buckets[idx].nodes[0];
                        proof {
                            let idd = idx as int;
                            assert(self.buckets@[idd].nodes@.contains(oldest));
                            assert(final(self).has_node(oldest));
                            assert(!self.buckets@[idd].has_id(node.id.val()));
                            self.lemma_absent(idd, node.id.val());
                            lemma_has_id_transfer(
                                self.buckets@,
                                pre_table.buckets@,
                                node.id.val(),
                            );
                            lemma_has_id_transfer(
                                pre_table.buckets@,
                                old(self).buckets@,
                                node.id.val(),
                            );
                        }
                        return AddResult::NeedsPing(oldest);
                    }
                },
            }
        }
    }

    /// Runs `KBucket::try_insert` on the bucket at `idx`, keeping the
    /// table invariant and relating the table's contacts before and after.
    #[verifier::rlimit(100)]
    fn try_insert_at(&mut self, idx: usize, node: Node) -> (r: InsertOutcome)
        requires
            old(self).wf(),
            idx < old(self).buckets@.len(),
            old(self).buckets@[idx as int].in_range(node.id.val()),
        ensures
            final(self).wf(),
            final(self).node == old(self).node,
            final(self).k_size == old(self).k_size,
            final(self).max_split_depth == old(self).max_split_depth,
            final(self).buckets@.len() == old(self).buckets@.len(),
            forall|i: int|
                0 <= i < final(self).buckets@.len() ==> (#[trigger] final(self).buckets@[i]).range
                    == old(self).buckets@[i].range && final(self).buckets@[i].depth == old(
                    self,
                ).buckets@[i].depth,
            r == InsertOutcome::Full ==> (forall|i: int|
                0 <= i < final(self).buckets@.len() ==> (#[trigger] final(self).buckets@[i]).nodes@
                    == old(self).buckets@[i].nodes@) && !old(self).buckets@[idx as int].has_id(
                node.id.val(),
            ) && old(self).buckets@[idx as int].nodes@.len() == old(self).k_size,
            r == InsertOutcome::Inserted ==> final(self).has_node(node) && (forall|n: Node|
                old(self).has_node(n) && n.id.val() != node.id.val() ==> final(self).has_node(n))
                && (forall|n: Node|
                final(self).has_node(n) && n.id.val() != node.id.val() ==> old(self).has_node(n)),
    {
        let ghost pre_table = *self;
        let mut bucket = self.buckets.remove(idx);
        let ghost pre = bucket;
        let outcome = bucket.try_insert(node);
        let ghost post = bucket;
        self.buckets.insert(idx, bucket);
        proof {
            assert(self.buckets@ =~= pre_table.buckets@.update(idx as int, post));
            pre_table.lemma_wf_update(*self, idx as int, post);
            if outcome == InsertOutcome::Inserted {
                lemma_inserted_preserves(pre_table.buckets@, self.buckets@, idx as int, node);
            }
        }
        outcome
    }

    /// Applies the liveness answer for the oldest contact of the bucket
    /// covering `node.id`, as reported by the transport: if that contact is
    /// alive the new contact is discarded and the table is unchanged;
    /// otherwise the oldest contact is evicted (when the bucket is still
    /// full) and `node` takes its place.
    #[verifier::rlimit(100)]
    pub fn resolve_eviction(&mut self, node: Node, oldest_alive: bool)
        requires
            old(self).wf(),
        ensures
            final(self).wf(),
            final(self).node == old(self).node,
            final(self).k_size == old(self).k_size,
            final(self).max_split_depth == old(self).max_split_depth,
            oldest_alive ==> *final(self) == *old(self),
            !oldest_alive ==> final(self).has_node(node) && (forall|n: Node|
                final(self).has_node(n) && n.id.val() != node.id.val() ==> old(self).has_node(n)),
    {
        if oldest_alive {
            return ;
        }
        let idx = self.find_bucket_index(&node.id);
        let ghost pre_table = *self;
        let mut bucket = self.buckets.remove(idx);
        let ghost pre = bucket;
        if bucket.nodes.len() >= self.k_size as usize && !bucket.contains_id(&node.id) {
            bucket.replace_oldest(node);
            let ghost post = bucket;
            self.buckets.insert(idx, bucket);
            proof {
                assert(self.buckets@ =~= pre_table.buckets@.update(idx as int, post));
                pre_table.lemma_wf_update(*self, idx as int, post);
                lemma_replaced_preserves(pre_table.buckets@, self.buckets@, idx as int, node);
            }
        } else {
            let outcome = bucket.try_insert(node);
            let ghost post = bucket;
            self.buckets.insert(idx, bucket);
            proof {
                assert(self.buckets@ =~= pre_table.buckets@.update(idx as int, post));
                pre_table.lemma_wf_update(*self, idx as int, post);
                assert(outcome == InsertOutcome::Inserted);
                lemma_inserted_preserves(pre_table.buckets@, self.buckets@, idx as int, node);
            }
        }
    }

    /// The `count` known contacts closest to `target` in XOR distance,
    /// in ascending distance order (ties broken by identifier value):
    /// every returned contact is in the table, no identifier repeats, and
    /// every contact left out is at least as far as every one returned.
    #[verifier::rlimit(100)]
    #[verifier::loop_isolation(false)]
    pub fn closest(&self, target: &NodeId, count: usize) -> (r: Vec<Node>)
        requires
            self.wf(),
        ensures
            sorted_by_closeness(*target, r@),
            forall|t: int| 0 <= t < r@.len() ==> self.has_node(#[trigger] r@[t]),
            forall|t1: int, t2: int|
                0 <= t1 < t2 < r@.len() ==> r@[t1].id.val() != r@[t2].id.val(),
            r@.len() <= count,
            forall|t: int, n: Node|
                #![trigger r@[t], r@.contains(n)]
                0 <= t < r@.len() && self.has_node(n) && !r@.contains(n) ==> closer_to(
                    *target,
                    r@[t],
                    n,
                ),
            r@.len() < count ==> forall|n: Node| self.has_node(n) ==> r@.contains(n),
    {
        let mut cands: Vec<Node> = Vec::new();
        let mut i: usize = 0;
        while i < self.buckets.len()
            invariant
                i <= self.buckets@.len(),
                forall|t: int| 0 <= t < cands@.len() ==> self.has_node(#[trigger] cands@[t]),
                forall|t: int|
                    0 <= t < cands@.len() && i < self.buckets@.len() ==> (#[trigger] cands@[
                        t]).id.val() < self.buckets@[i as int].low(),
                forall|t1: int, t2: int|
                    0 <= t1 < t2 < cands@.len() ==> cands@[t1].id.val() != cands@[t2].id.val(),
                forall|j: int, t: int|
                    0 <= j < i && 0 <= t < self.buckets@[j].nodes@.len() ==> cands@.contains(
                        #[trigger] self.buckets@[j].nodes@[t],
                    ),
            decreases self.buckets@.len() - i,
        {
            let mut t: usize = 0;
            while t < self.buckets[i].nodes.len()
                invariant
                    i < self.buckets@.len(),
                    t <= self.buckets@[i as int].nodes@.len(),
                    forall|u: int| 0 <= u < cands@.len() ==> self.has_node(#[trigger] cands@[u]),
                    forall|u: int|
                        0 <= u < cands@.len() ==> (#[trigger] cands@[u]).id.val()
                            <= self.buckets@[i as int].high(),
                    forall|u: int|
                        0 <= u < cands@.len() ==> (#[trigger] cands@[u]).id.val()
                            < self.buckets@[i as int].low() || (exists|v: int|
                            0 <= v < t && cands@[u] == #[trigger] self.buckets@[i as int].nodes@[v]),
                    forall|u1: int, u2: int|
                        0 <= u1 < u2 < cands@.len() ==> cands@[u1].id.val() != cands@[u2].id.val(),
                    forall|j: int, u: int|
                        0 <= j < i && 0 <= u < self.buckets@[j].nodes@.len() ==> cands@.contains(
                            #[trigger] self.buckets@[j].nodes@[u],
                        ),
                    forall|v: int|
                        0 <= v < t ==> cands@.contains(
                            #[trigger] self.buckets@[i as int].nodes@[v],
                        ),
                decreases self.buckets@[i as int].nodes@.len() - t,
            {
                let n = self.buckets[i].nodes[t];
                let ghost c_old = cands@;
                proof {
                    assert forall|u: int| 0 <= u < cands@.len() implies cands@[u].id.val()
                        != n.id.val() by {
                        if cands@[u].id.val() >= self.buckets@[i as int].low() {
                            let v = choose|v: int|
                                0 <= v < t && cands@[u] == #[trigger] self.buckets@[i as int].nodes@[
                                    v];
                        }
                    }
                }
                cands.push(n);
                proof {
                    assert(cands@[cands@.len() - 1] == n);
                    assert(cands@.contains(n));
                    assert forall|x: Node| c_old.contains(x) implies cands@.contains(x) by {
                        let u = choose|u: int| 0 <= u < c_old.len() && c_old[u] == x;
                        assert(cands@[u] == x);
                    }
                    assert(self.buckets@[i as int].nodes@.contains(n));
                    assert(self.has_node(n));
                }
                t += 1;
            }
            proof {
                if i as int + 1 < self.buckets@.len() {
                    self.lemma_bucket_order(i as int, i as int + 1);
                }
            }
            i += 1;
        }
        proof {
            assert forall|n: Node| self.has_node(n) implies cands@.contains(n) by {
                let j = choose|j: int|
                    0 <= j < self.buckets@.len() && (#[trigger] self.buckets@[j]).nodes@.contains(n);
                let t = choose|t: int|
                    0 <= t < self.buckets@[j].nodes@.len() && self.buckets@[j].nodes@[t] == n;
                assert(cands@.contains(self.buckets@[j].nodes@[t]));
            }
        }
        let ghost all = cands@;
        let mut sorted = sort_by_closeness(target, cands);
        let sorted_len = sorted.len();
        let ghost full = sorted@;
        sorted.truncate(count);
        proof {
            assert(sorted@ == full.subrange(0, if count as int <= full.len() {
                count as int
            } else {
                full.len() as int
            }));
            assert forall|t: int| 0 <= t < sorted@.len() implies self.has_node(
                #[trigger] sorted@[t],
            ) by {
                assert(sorted@[t] == full[t]);
                assert(full.contains(full[t]));
                let u = choose|u: int| 0 <= u < all.len() && all[u] == full[t];
                assert(self.has_node(all[u]));
            }
            assert forall|t: int, n: Node|
                #![trigger sorted@[t], sorted@.contains(n)]
                0 <= t < sorted@.len() && self.has_node(n) && !sorted@.contains(n) implies closer_to(
                *target,
                sorted@[t],
                n,
            ) by {
                assert(all.contains(n));
                let p = choose|p: int| 0 <= p < full.len() && full[p] == n;
                if p < sorted@.len() {
                    assert(sorted@[p] == n);
                    assert(sorted@.contains(n));
                } else {
                    assert(sorted@[t] == full[t]);
                    assert(closer_to(*target, full[t], full[p]));
                }
            }
            if sorted@.len() < count {
                assert(full.len() < count);
                assert(sorted@ =~= full);
                assert forall|n: Node| self.has_node(n) implies sorted@.contains(n) by {
                    assert(all.contains(n));
                    let u = choose|u: int| 0 <= u < all.len() && all[u] == n;
                    assert(full.contains(n));
                }
            }
        }
        sorted
    }

    /// Replacing one bucket by a well-formed bucket with the same range and
    /// capacity keeps the table invariant.
    pub proof fn lemma_wf_update(self, t2: RoutingTable, idx: int, b: KBucket)
        requires
            self.wf(),
            0 <= idx < self.buckets@.len(),
            t2.buckets@ == self.buckets@.update(idx, b),
            b.wf(),
            b.range == self.buckets@[idx].range,
            b.k_size == self.buckets@[idx].k_size,
            t2.k_size == self.k_size,
        ensures
            t2.wf(),
    {
        assert(t2.buckets@[0].low() == 0);
        assert(t2.buckets@[t2.buckets@.len() - 1].high() == max_id_val());
    }

    /// Law: a well-formed table holds at most one entry per identifier;
    /// together with `add`'s contract, adding a contact twice leaves
    /// exactly one entry for its identifier, carrying the latest address
    /// and port.
    pub proof fn lemma_at_most_one_entry(self, i1: int, t1: int, i2: int, t2: int)
        requires
            self.wf(),
            0 <= i1 < self.buckets@.len(),
            0 <= i2 < self.buckets@.len(),
            0 <= t1 < self.buckets@[i1].nodes@.len(),
            0 <= t2 < self.buckets@[i2].nodes@.len(),
            self.buckets@[i1].nodes@[t1].id.val() == self.buckets@[i2].nodes@[t2].id.val(),
        ensures
            i1 == i2,
            t1 == t2,
    {
        let v = self.buckets@[i1].nodes@[t1].id.val();
        if i1 != i2 {
            assert(self.buckets@[i1].in_range(v));
            assert(self.buckets@[i2].has_id(v));
            self.lemma_unique_cover(v, i1, i2);
        }
        if t1 != t2 {
            assert(self.buckets@[i1].wf());
        }
    }

    /// An identifier absent from its covering bucket is absent from the
    /// whole table.
    pub proof fn lemma_absent(self, idx: int, v: nat)
        requires
            self.wf(),
            0 <= idx < self.buckets@.len(),
            self.buckets@[idx].in_range(v),
            !self.buckets@[idx].has_id(v),
        ensures
            !self.has_id(v),
    {
        assert forall|j: int|
            0 <= j < self.buckets@.len() implies !(#[trigger] self.buckets@[j]).has_id(v) by {
            if j != idx {
                self.lemma_unique_cover(v, idx, j);
            }
        }
    }
}

/// `a` is at least as close to `target` as `b`: smaller XOR distance, with
/// ties broken by identifier value.
pub open spec fn closer_to(target: NodeId, a: Node, b: Node) -> bool {
    let da = xor_id(a.id, target).val();
    let db = xor_id(b.id, target).val();
    da < db || (da == db && a.id.val() <= b.id.val())
}

/// Ascending by XOR distance to `target`.
pub open spec fn sorted_by_closeness(target: NodeId, s: Seq<Node>) -> bool {
    forall|i: int, j: int| 0 <= i < j < s.len() ==> closer_to(target, s[i], s[j])
}

/// Decides `closer_to` executably.
fn closer(target: &NodeId, a: &Node, b: &Node) -> (r: bool)
    ensures
        r == closer_to(*target, *a, *b),
{
    let da = a.id.xor_distance(*target);
    let db = b.id.xor_distance(*target);
    if da.lt(&db) {
        true
    } else if db.lt(&da) {
        false
    } else {
        a.id.le(&b.id)
    }
}

/// Insertion sort by XOR distance to `target`.
#[verifier::rlimit(100)]
#[verifier::loop_isolation(false)]
fn sort_by_closeness(target: &NodeId, input: Vec<Node>) -> (r: Vec<Node>)
    requires
        forall|t1: int, t2: int|
            0 <= t1 < t2 < input@.len() ==> input@[t1].id.val() != input@[t2].id.val(),
    ensures
        r@.len() == input@.len(),
        sorted_by_closeness(*target, r@),
        drawn_from(r@, input@),
        drawn_from(input@, r@),
        forall|t1: int, t2: int|
            0 <= t1 < t2 < r@.len() ==> r@[t1].id.val() != r@[t2].id.val(),
{
    let mut out: Vec<Node> = Vec::new();
    let mut i: usize = 0;
    while i < input.len()
        invariant
            i <= input@.len(),
            out@.len() == i,
            sorted_by_closeness(*target, out@),
            drawn_from(out@, input@),
            forall|u: int| 0 <= u < i ==> out@.contains(#[trigger] input@[u]),
            forall|k: int|
                #![trigger out@[k]]
                0 <= k < out@.len() ==> exists|u: int| 0 <= u < i && out@[k] == #[trigger] input@[u],
            forall|k1: int, k2: int|
                0 <= k1 < k2 < out@.len() ==> out@[k1].id.val() != out@[k2].id.val(),
        decreases input@.len() - i,
    {
        let x = input[i];
        let ghost out_old = out@;
        let mut pos: usize = 0;
        while pos < out.len() && closer(target, &out[pos], &x)
            invariant
                pos <= out@.len(),
                out@ == out_old,
                forall|k: int| 0 <= k < pos ==> closer_to(*target, #[trigger] out@[k], x),
            decreases out@.len() - pos,
        {
            pos += 1;
        }
        proof {
            assert forall|k: int| 0 <= k < out@.len() implies out@[k].id.val() != x.id.val() by {
                let u = choose|u: int| 0 <= u < i && out@[k] == #[trigger] input@[u];
                assert(input@[u].id.val() != input@[i as int].id.val());
            }
        }
        out.insert(pos, x);
        proof {
            assert(out@ == out_old.insert(pos as int, x));
            assert(out@[pos as int] == x);
            assert forall|k: int| 0 <= k < out@.len() implies out@[k] == (if k < pos {
                out_old[k]
            } else if k == pos {
                x
            } else {
                out_old[k - 1]
            }) by {}
            assert forall|k1: int, k2: int|
                0 <= k1 < k2 < out@.len() implies closer_to(*target, out@[k1], out@[k2]) by {
                if k1 == pos as int && k2 > pos as int {
                    assert(!closer_to(*target, out_old[pos as int], x));
                    assert(closer_to(*target, x, out_old[pos as int]));
                    if k2 - 1 > pos as int {
                        assert(closer_to(*target, out_old[pos as int], out_old[k2 - 1]));
                    }
                    assert(closer_to(*target, x, out_old[k2 - 1]));
                }
                if k1 < pos as int && k2 == pos as int {
                    assert(closer_to(*target, out_old[k1], x));
                }
            }
            assert(out@.contains(x));
            assert(input@.contains(input@[i as int]));
            assert forall|y: Node| out_old.contains(y) implies out@.contains(y) by {
                let u = choose|u: int| 0 <= u < out_old.len() && out_old[u] == y;
                if u < pos as int {
                    assert(out@[u] == y);
                } else {
                    assert(out@[u + 1] == y);
                }
            }
            assert forall|k: int| #![trigger out@[k]] 0 <= k < out@.len() implies exists|u: int|
                0 <= u < i + 1 && out@[k] == #[trigger] input@[u] by {
                if k == pos as int {
                    assert(out@[k] == input@[i as int]);
                } else {
                    let kk = if k < pos as int {
                        k
                    } else {
                        k - 1
                    };
                    assert(out@[k] == out_old[kk]);
                    let u = choose|u: int| 0 <= u < i && out_old[kk] == #[trigger] input@[u];
                }
            }
        }
        i += 1;
    }
    proof {
        assert forall|t: int| #![trigger input@[t]] 0 <= t < input@.len() implies out@.contains(
            input@[t],
        ) by {}
        assert(drawn_from(input@, out@)) by {
            assert forall|t: int| #![trigger input@[t]] 0 <= t < input@.len()
                implies out@.contains(input@[t]) by {}
        }
    }
    out
}

/// Tables whose buckets hold the same contact lists hold the same contacts.
proof fn lemma_same_nodes(olds: Seq<KBucket>, news: Seq<KBucket>)
    requires
        olds.len() == news.len(),
        forall|i: int| 0 <= i < news.len() ==> (#[trigger] news[i]).nodes@ == olds[i].nodes@,
    ensures
        forall|n: Node| seq_has_node(news, n) <==> seq_has_node(olds, n),
{
    assert forall|n: Node| seq_has_node(news, n) implies seq_has_node(olds, n) by {
        let i = choose|i: int| 0 <= i < news.len() && (#[trigger] news[i]).nodes@.contains(n);
        assert(olds[i].nodes@.contains(n));
    }
    assert forall|n: Node| seq_has_node(olds, n) implies seq_has_node(news, n) by {
        let i = choose|i: int| 0 <= i < olds.len() && (#[trigger] olds[i]).nodes@.contains(n);
        assert(news[i].nodes@.contains(n));
    }
}

/// Updating one bucket by a `try_insert` that placed `node` adds exactly
/// that contact and keeps every contact with a different identifier.
proof fn lemma_inserted_preserves(olds: Seq<KBucket>, news: Seq<KBucket>, idx: int, node: Node)
    requires
        0 <= idx < olds.len(),
        news == olds.update(idx, news[idx]),
        olds[idx].has_id(node.id.val()) ==> exists|j: int|
            0 <= j < olds[idx].nodes@.len() && olds[idx].nodes@[j].id.val() == node.id.val()
                && news[idx].nodes@ == olds[idx].nodes@.remove(j).push(node),
        !olds[idx].has_id(node.id.val()) ==> news[idx].nodes@ == olds[idx].nodes@.push(node),
    ensures
        seq_has_node(news, node),
        forall|n: Node|
            seq_has_node(olds, n) && n.id.val() != node.id.val() ==> seq_has_node(news, n),
        forall|n: Node|
            seq_has_node(news, n) && n.id.val() != node.id.val() ==> seq_has_node(olds, n),
{
    let pre = olds[idx].nodes@;
    let post = news[idx].nodes@;
    assert(post[post.len() - 1] == node) by {
        if olds[idx].has_id(node.id.val()) {
            let j = choose|j: int|
                0 <= j < pre.len() && pre[j].id.val() == node.id.val() && post == pre.remove(
                    j,
                ).push(node);
            assert(post == pre.remove(j).push(node));
        }
    }
    assert(post.contains(node));
    assert(seq_has_node(news, node));
    assert forall|n: Node|
        seq_has_node(olds, n) && n.id.val() != node.id.val() implies seq_has_node(news, n) by {
        let i = choose|i: int| 0 <= i < olds.len() && (#[trigger] olds[i]).nodes@.contains(n);
        if i == idx {
            let t = choose|t: int| 0 <= t < pre.len() && pre[t] == n;
            if olds[idx].has_id(node.id.val()) {
                let j = choose|j: int|
                    0 <= j < pre.len() && pre[j].id.val() == node.id.val() && post == pre.remove(
                        j,
                    ).push(node);
                if t < j {
                    assert(post[t] == n);
                } else {
                    assert(t != j);
                    assert(post[t - 1] == n);
                }
                assert(post.contains(n));
            } else {
                assert(post[t] == n);
                assert(post.contains(n));
            }
            assert(news[idx].nodes@.contains(n));
        } else {
            assert(news[i].nodes@.contains(n));
        }
    }
    assert forall|n: Node|
        seq_has_node(news, n) && n.id.val() != node.id.val() implies seq_has_node(olds, n) by {
        let i = choose|i: int| 0 <= i < news.len() && (#[trigger] news[i]).nodes@.contains(n);
        if i == idx {
            let t = choose|t: int| 0 <= t < post.len() && post[t] == n;
            assert(t < post.len() - 1);
            if olds[idx].has_id(node.id.val()) {
                let j = choose|j: int|
                    0 <= j < pre.len() && pre[j].id.val() == node.id.val() && post == pre.remove(
                        j,
                    ).push(node);
                assert(n == if t < j {
                    pre[t]
                } else {
                    pre[t + 1]
                });
                assert(pre.contains(n));
            } else {
                assert(pre[t] == n);
                assert(pre.contains(n));
            }
            assert(olds[idx].nodes@.contains(n));
        } else {
            assert(olds[i].nodes@.contains(n));
        }
    }
}

/// Evicting the oldest contact of one bucket in favour of `node` keeps
/// every other contact somewhere in the table.
proof fn lemma_replaced_preserves(olds: Seq<KBucket>, news: Seq<KBucket>, idx: int, node: Node)
    requires
        0 <= idx < olds.len(),
        news == olds.update(idx, news[idx]),
        olds[idx].nodes@.len() >= 1,
        news[idx].nodes@ == olds[idx].nodes@.subrange(1, olds[idx].nodes@.len() as int).push(node),
    ensures
        seq_has_node(news, node),
        forall|n: Node|
            seq_has_node(news, n) && n.id.val() != node.id.val() ==> seq_has_node(olds, n),
{
    let pre = olds[idx].nodes@;
    let post = news[idx].nodes@;
    assert(post[post.len() - 1] == node);
    assert(post.contains(node));
    assert(seq_has_node(news, node));
    assert forall|n: Node|
        seq_has_node(news, n) && n.id.val() != node.id.val() implies seq_has_node(olds, n) by {
        let i = choose|i: int| 0 <= i < news.len() && (#[trigger] news[i]).nodes@.contains(n);
        if i == idx {
            let t = choose|t: int| 0 <= t < post.len() && post[t] == n;
            assert(t < post.len() - 1);
            assert(post[t] == pre[t + 1]);
            assert(pre.contains(n));
            assert(olds[idx].nodes@.contains(n));
        } else {
            assert(olds[i].nodes@.contains(n));
        }
    }
}

/// Tables with the same contacts agree on which identifiers are present.
proof fn lemma_has_id_transfer(a: Seq<KBucket>, b: Seq<KBucket>, v: nat)
    requires
        forall|n: Node| seq_has_node(a, n) <==> seq_has_node(b, n),
        !seq_has_id(a, v),
    ensures
        !seq_has_id(b, v),
{
    if seq_has_id(b, v) {
        let i = choose|i: int| 0 <= i < b.len() && (#[trigger] b[i]).has_id(v);
        let t = choose|t: int| 0 <= t < b[i].nodes@.len() && b[i].nodes@[t].id.val() == v;
        let n = b[i].nodes@[t];
        assert(b[i].nodes@.contains(n));
        assert(seq_has_node(b, n));
        assert(seq_has_node(a, n));
        let ai = choose|ai: int| 0 <= ai < a.len() && (#[trigger] a[ai]).nodes@.contains(n);
        let at = choose|at: int| 0 <= at < a[ai].nodes@.len() && a[ai].nodes@[at] == n;
        assert(a[ai].has_id(v));
    }
}


} // verus!
