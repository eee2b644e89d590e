//! Bit layout of an identifier: `[kind:8][node:16][counter:40]`, most
//! significant field first.
use vstd::prelude::*;

verus! {

/// 2^56: weight of the kind field.
pub const KIND_UNIT: u64 = 0x100_0000_0000_0000;

/// 2^40: weight of the node field, and the number of counter values.
pub const NODE_UNIT: u64 = 0x100_0000_0000;

/// Mask of the low 40 bits, where the counter lives.
pub const COUNTER_MASK: u64 = 0xFF_FFFF_FFFF;

/// The kind field of a raw value: bits 63..56.
pub open spec fn kind_of(raw: u64) -> int {
    raw as int / KIND_UNIT as int
}

/// The node field of a raw value: bits 55..40.
pub open spec fn node_of(raw: u64) -> int {
    (raw as int / NODE_UNIT as int) % 0x1_0000
}

/// The counter field of a raw value: bits 39..0.
pub open spec fn counter_of(raw: u64) -> int {
    raw as int % NODE_UNIT as int
}

/// The raw value that packs the three fields, the counter cut to 40 bits.
pub open spec fn packed(kind: int, node: int, counter: int) -> int {
    kind * KIND_UNIT as int + node * NODE_UNIT as int + counter % NODE_UNIT as int
}

/// The value of bytes read most significant first.
pub open spec fn be_value(b: Seq<u8>) -> int
    decreases b.len(),
{
    if b.len() == 0 {
        0
    } else {
        be_value(b.drop_last()) * 256 + b.last() as int
    }
}

/// The eight bytes of a raw value, most significant first.
pub open spec fn be_bytes(raw: u64) -> Seq<u8> {
    Seq::new(8, |i: int| ((raw as int / pow256(7 - i)) % 256) as u8)
}

/// 256 to the power of `e`.
pub open spec fn pow256(e: int) -> int
    decreases e,
{
    if e <= 0 {
        1
    } else {
        256 * pow256(e - 1)
    }
}

/// A packed identifier. Identifiers order as their raw values do, which is
/// by kind, then node, then counter.
#[derive(Clone, Copy, PartialEq, Eq, Structural, PartialOrd, Ord, Hash, Debug)]
pub struct NetId64(pub u64);

/// The three fields of an identifier, side by side.
#[derive(Clone, Copy, PartialEq, Eq, Structural, Debug)]
pub struct Triple {
    pub kind: u8,
    pub node: u16,
    pub counter: u64,
}

impl NetId64 {
    /// The raw 64-bit value.
    pub fn raw(self) -> (r: u64)
        ensures
            r == self.0,
    {
        self.0
    }

    /// The kind field.
    pub fn kind(self) -> (r: u8)
        ensures
            r == kind_of(self.0),
    {
        let v = self.0;
        assert((v >> 56u64) as u8 == v / 0x100_0000_0000_0000u64) by (bit_vector);
        (v >> 56) as u8
    }

    /// The node field.
    pub fn node(self) -> (r: u16)
        ensures
            r == node_of(self.0),
    {
        let v = self.0;
        assert(((v >> 40u64) & 0xFFFFu64) as u16 == (v / 0x100_0000_0000u64) % 0x1_0000u64)
            by (bit_vector);
        ((v >> 40) & 0xFFFF) as u16
    }

    /// The counter field, below 2^40.
    pub fn counter(self) -> (r: u64)
        ensures
            r == counter_of(self.0),
            r < NODE_UNIT,
    {
        let v = self.0;
        assert(v & 0xFF_FFFF_FFFFu64 == v % 0x100_0000_0000u64) by (bit_vector);
        v & COUNTER_MASK
    }

    /// Packs the fields; a counter of 2^40 or more keeps its low 40 bits only.
    pub fn make(kind: u8, node: u16, counter: u64) -> (r: Self)
        ensures
            r.0 == packed(kind as int, node as int, counter as int),
    {
        let k = kind as u64;
        let n = node as u64;
        assert(k < 0x100 && n < 0x1_0000 ==> ((k << 56u64) | (n << 40u64) | (counter
            & 0xFF_FFFF_FFFFu64)) == k * 0x100_0000_0000_0000u64 + n * 0x100_0000_0000u64
            + counter % 0x100_0000_0000u64) by (bit_vector);
        NetId64((k << 56) | (n << 40) | (counter & COUNTER_MASK))
    }

    /// The raw value as eight bytes, most significant first: byte 0 is the kind.
    pub fn to_be_bytes(self) -> (r: [u8; 8])
        ensures
            r@ == be_bytes(self.0),
    {
        let v = self.0;
        let r = [
            (v >> 56) as u8,
            (v >> 48) as u8,
            (v >> 40) as u8,
            (v >> 32) as u8,
            (v >> 24) as u8,
            (v >> 16) as u8,
            (v >> 8) as u8,
            v as u8,
        ];
        proof {
            reveal_with_fuel(pow256, 8);
            assert((v >> 56u64) as u8 == (v / 0x100_0000_0000_0000u64) % 256) by (bit_vector);
            assert((v >> 48u64) as u8 == (v / 0x1_0000_0000_0000u64) % 256) by (bit_vector);
            assert((v >> 40u64) as u8 == (v / 0x100_0000_0000u64) % 256) by (bit_vector);
            assert((v >> 32u64) as u8 == (v / 0x1_0000_0000u64) % 256) by (bit_vector);
            assert((v >> 24u64) as u8 == (v / 0x100_0000u64) % 256) by (bit_vector);
            assert((v >> 16u64) as u8 == (v / 0x1_0000u64) % 256) by (bit_vector);
            assert((v >> 8u64) as u8 == (v / 0x100u64) % 256) by (bit_vector);
            assert(v as u8 == v % 256) by (bit_vector);
            assert(r@ =~= be_bytes(v));
        }
        r
    }

    /// The identifier whose raw value the eight bytes spell, most significant
    /// first. Every byte string is accepted.
    pub fn from_be_bytes(b: [u8; 8]) -> (r: Self)
        ensures
            r.0 == be_value(b@),
    {
        let mut v: u64 = 0;
        let mut i: usize = 0;
        while i < 8
            invariant
                0 <= i <= 8,
                b@.len() == 8,
                v == be_value(b@.take(i as int)),
                v < pow256(i as int),
            decreases 8 - i,
        {
            proof {
                reveal_with_fuel(pow256, 9);
                assert(b@.take(i as int + 1).drop_last() =~= b@.take(i as int));
                assert(v * 256 + b[i as int] < pow256(i as int + 1)) by (nonlinear_arith)
                    requires
                        v < pow256(i as int),
                        b[i as int] < 256,
                        pow256(i as int + 1) == 256 * pow256(i as int),
                ;
            }
            v = v * 256 + b[i] as u64;
            i = i + 1;
        }
        assert(b@.take(8) =~= b@);
        NetId64(v)
    }

    /// The three fields.
    pub fn to_triple(self) -> (r: Triple)
        ensures
            r.kind == kind_of(self.0),
            r.node == node_of(self.0),
            r.counter == counter_of(self.0),
    {
        Triple { kind: self.kind(), node: self.node(), counter: self.counter() }
    }
}

} // verus!

verus! {

/// Reading back the bytes of a raw value gives that value:
/// `from_be_bytes(to_be_bytes(x)) == x` for every identifier `x`.
pub proof fn lemma_bytes_round_trip(raw: u64)
    ensures
        be_value(be_bytes(raw)) == raw,
{
    let b = be_bytes(raw);
    reveal_with_fuel(pow256, 8);
    reveal_with_fuel(be_value, 9);
    assert(b.take(8) =~= b);
    lemma_be_prefix(raw, 8);
}

/// The first `k` bytes of a raw value read back as the value shifted right by
/// the remaining bytes.
proof fn lemma_be_prefix(raw: u64, k: int)
    requires
        0 <= k <= 8,
    ensures
        be_value(be_bytes(raw).take(k)) == raw as int / pow256(8 - k),
    decreases k,
{
    let b = be_bytes(raw);
    let r = raw as int;
    reveal_with_fuel(pow256, 9);
    if k == 0 {
        assert(r / pow256(8) == 0) by {
            vstd::arithmetic::div_mod::lemma_basic_div(r, pow256(8));
        }
    } else {
        lemma_be_prefix(raw, k - 1);
        assert(b.take(k).drop_last() =~= b.take(k - 1));
        let p = pow256(8 - k);
        assert(pow256(9 - k) == 256 * p);
        assert(r / (p * 256) * 256 + (r / p) % 256 == r / p) by {
            vstd::arithmetic::div_mod::lemma_div_denominator(r, p, 256);
            vstd::arithmetic::div_mod::lemma_fundamental_div_mod(r / p, 256);
        }
        assert(p * 256 == 256 * p);
    }
}

/// Packing fields that are in range and reading them back gives the same
/// fields.
pub proof fn lemma_fields_round_trip(kind: int, node: int, counter: int)
    requires
        0 <= kind < 0x100,
        0 <= node < 0x1_0000,
        0 <= counter < NODE_UNIT,
    ensures
        0 <= packed(kind, node, counter) <= u64::MAX,
        kind_of(packed(kind, node, counter) as u64) == kind,
        node_of(packed(kind, node, counter) as u64) == node,
        counter_of(packed(kind, node, counter) as u64) == counter,
{
    let u = NODE_UNIT as int;
    let v = packed(kind, node, counter);
    assert(counter % u == counter) by {
        vstd::arithmetic::div_mod::lemma_small_mod(counter as nat, u as nat);
    }
    let hi = kind * 0x1_0000 + node;
    assert(v == hi * u + counter);
    assert(0 <= hi < 0x100_0000);
    assert(v / u == hi && v % u == counter) by {
        vstd::arithmetic::div_mod::lemma_fundamental_div_mod_converse(v, u, hi, counter);
    }
    assert(hi / 0x1_0000 == kind && hi % 0x1_0000 == node) by {
        vstd::arithmetic::div_mod::lemma_fundamental_div_mod_converse(hi, 0x1_0000, kind, node);
    }
    assert(v / (KIND_UNIT as int) == kind) by {
        vstd::arithmetic::div_mod::lemma_div_denominator(v, u, 0x1_0000);
    }
}

/// Every raw value is the packing of its own fields.
pub proof fn lemma_fields_cover(raw: u64)
    ensures
        0 <= kind_of(raw) < 0x100,
        0 <= node_of(raw) < 0x1_0000,
        0 <= counter_of(raw) < NODE_UNIT,
        packed(kind_of(raw), node_of(raw), counter_of(raw)) == raw,
{
    let r = raw as int;
    let u = NODE_UNIT as int;
    let hi = r / u;
    vstd::arithmetic::div_mod::lemma_fundamental_div_mod(r, u);
    vstd::arithmetic::div_mod::lemma_fundamental_div_mod(hi, 0x1_0000);
    vstd::arithmetic::div_mod::lemma_div_denominator(r, u, 0x1_0000);
    assert(0 <= hi < 0x100_0000);
    assert(counter_of(raw) % u == counter_of(raw)) by {
        vstd::arithmetic::div_mod::lemma_mod_twice(r, u);
    }
}

/// A counter of 2^40 or more packs as its low 40 bits do.
pub proof fn lemma_counter_truncation(kind: int, node: int, counter: int)
    requires
        counter >= 0,
    ensures
        packed(kind, node, counter) == packed(kind, node, counter % NODE_UNIT as int),
{
    vstd::arithmetic::div_mod::lemma_mod_twice(counter, NODE_UNIT as int);
}

} // verus!
