//! The 32-bit units of a double array.
//!
//! A unit is either a node (a label, an offset and a flag that tells whether the
//! node ends a key) or a leaf (a value, marked by the topmost bit).

use vstd::prelude::*;

verus! {

/// Bits of a leaf that hold its value.
pub const VALUE_MASK: u32 = 0x7FFF_FFFF;

/// Marks a leaf.
pub const LEAF_FLAG: u32 = 0x8000_0000;

/// Marks a node that ends a key.
pub const HAS_LEAF_FLAG: u32 = 0x100;

/// Marks an offset that is stored without its low eight bits.
pub const OFFSET_FLAG: u32 = 0x200;

/// Bits of a node that hold its label.
pub const LABEL_MASK: u32 = 0xFF;

/// The offsets that a unit can hold are below this bound.
pub const OFFSET_LIMIT: u32 = 0x2000_0000;

/// The label of a node; a leaf keeps its topmost bit here and so equals no byte.
pub open spec fn label_of(u: u32) -> u32 {
    u & 0x8000_00FF
}

/// Whether a node ends a key.
pub open spec fn has_leaf_of(u: u32) -> bool {
    u & 0x100 != 0
}

/// The value of a leaf.
pub open spec fn value_of(u: u32) -> i32 {
    (u & 0x7FFF_FFFF) as i32
}

/// The distance (by exclusive or) from a node to the block of its children.
pub open spec fn offset_of(u: u32) -> u32 {
    (u >> 10) << ((u & 0x200) >> 6)
}

/// Whether a unit is a leaf.
pub open spec fn is_leaf_unit(u: u32) -> bool {
    u & 0x8000_0000 != 0
}

/// The byte under which a unit hangs below its parent: a node's label, zero for a leaf.
pub open spec fn tag_of(u: u32) -> u8 {
    if is_leaf_unit(u) {
        0
    } else {
        (u & 0xFF) as u8
    }
}

/// The place of the child with label `c` below the base `b`.
pub open spec fn slot(b: u32, c: u8) -> u32 {
    b ^ (c as u32)
}

/// Whether a unit can hold an offset exactly.
pub open spec fn encodable(offset: u32) -> bool {
    offset < 0x2000_0000 && (offset & 0x1FE0_0000 == 0 || offset & 0xFF == 0)
}

/// The bits that `set_offset` stores for an offset.
pub open spec fn offset_bits(offset: u32) -> u32 {
    if offset < 0x20_0000 {
        offset << 10
    } else {
        (offset << 2) | 0x200
    }
}

pub broadcast proof fn lemma_slot_twice(b: u32, c: u8)
    ensures
        slot(#[trigger] slot(b, c), c) == b,
{
    let d = c as u32;
    assert((b ^ d) ^ d == b) by (bit_vector);
}

pub broadcast proof fn lemma_slot_zero(b: u32)
    ensures
        #[trigger] slot(b, 0) == b,
{
    assert(b ^ 0 == b) by (bit_vector);
}

/// A child lies in the same group of 256 units as its base.
pub broadcast proof fn lemma_slot_block(b: u32, c: u8)
    ensures
        (#[trigger] slot(b, c)) / 256 == b / 256,
{
    assert((b ^ (c as u32)) / 256 == b / 256) by (bit_vector);
}

pub proof fn lemma_slot_injective(b: u32, c: u8, d: u8)
    requires
        slot(b, c) == slot(b, d),
    ensures
        c == d,
{
    assert(b ^ (c as u32) == b ^ (d as u32) ==> c == d) by (bit_vector);
}

/// The tag under which `s` hangs below a base in its own group.
pub proof fn lemma_slot_between(s: u32, b: u32)
    requires
        s / 256 == b / 256,
    ensures
        slot(s, (s ^ b) as u8) == b,
        slot(b, (s ^ b) as u8) == s,
{
    assert(s / 256 == b / 256 ==> s ^ (((s ^ b) as u8) as u32) == b && b ^ (((s ^ b) as u8) as u32) == s)
        by (bit_vector);
}

/// Labels and tags say the same of every node.
pub proof fn lemma_label_tag(u: u32, c: u8)
    ensures
        label_of(u) == c as u32 <==> !is_leaf_unit(u) && tag_of(u) == c,
{
    assert(u & 0x8000_00FF == c as u32 <==> u & 0x8000_0000 == 0 && (u & 0xFF) as u8 == c)
        by (bit_vector);
}

pub proof fn lemma_zero_unit()
    ensures
        tag_of(0) == 0,
        !has_leaf_of(0),
        !is_leaf_unit(0),
        offset_of(0) == 0,
{
    assert(0u32 & 0x8000_0000 == 0 && (0u32 & 0xFF) as u8 == 0 && 0u32 & 0x100 == 0 && (0u32 >> 10)
        << ((0u32 & 0x200) >> 6) == 0) by (bit_vector);
}

/// What `set_label` leaves of a unit that was never written.
pub proof fn lemma_fresh_label(c: u8)
    ensures
        ({
            let u = (0u32 & !0xFFu32) | (c as u32);
            tag_of(u) == c && !has_leaf_of(u) && !is_leaf_unit(u)
        }),
{
    assert({
        let u = (0u32 & !0xFFu32) | (c as u32);
        (u & 0xFF) as u8 == c && u & 0x100 == 0 && u & 0x8000_0000 == 0
    }) by (bit_vector);
}

/// A leaf gives its value back.
pub proof fn lemma_leaf_value(v: i32)
    requires
        v >= 0,
    ensures
        is_leaf_unit((v as u32) | 0x8000_0000),
        value_of((v as u32) | 0x8000_0000) == v,
        tag_of((v as u32) | 0x8000_0000) == 0,
{
    let w = v as u32;
    assert(w < 0x8000_0000 ==> (w | 0x8000_0000) & 0x8000_0000 != 0 && (w | 0x8000_0000)
        & 0x7FFF_FFFF == w) by (bit_vector);
}

/// Writing an offset that can be held changes the offset and nothing else.
pub proof fn lemma_set_offset(u: u32, offset: u32)
    requires
        encodable(offset),
        !is_leaf_unit(u),
    ensures
        ({
            let w = (u & 0x8000_01FF) | offset_bits(offset);
            &&& offset_of(w) == offset
            &&& has_leaf_of(w) == has_leaf_of(u)
            &&& is_leaf_unit(w) == is_leaf_unit(u)
            &&& tag_of(w) == tag_of(u)
        }),
{
    assert(u & 0x8000_0000 == 0 && offset < 0x20_0000 ==> {
        let w = (u & 0x8000_01FF) | (offset << 10);
        &&& (w >> 10) << ((w & 0x200) >> 6) == offset
        &&& w & 0x8000_0000 == 0
        &&& w & 0x100 == u & 0x100
        &&& w & 0xFF == u & 0xFF
    }) by (bit_vector);
    assert(u & 0x8000_0000 == 0 && 0x20_0000 <= offset < 0x2000_0000 && (offset & 0x1FE0_0000 == 0
        || offset & 0xFF == 0) ==> {
        let w = (u & 0x8000_01FF) | ((offset << 2) | 0x200);
        &&& (w >> 10) << ((w & 0x200) >> 6) == offset
        &&& w & 0x8000_0000 == 0
        &&& w & 0x100 == u & 0x100
        &&& w & 0xFF == u & 0xFF
    }) by (bit_vector);
}

/// Marking a node as the end of a key changes nothing else.
pub proof fn lemma_set_has_leaf(u: u32)
    ensures
        has_leaf_of(u | 0x100),
        offset_of(u | 0x100) == offset_of(u),
        is_leaf_unit(u | 0x100) == is_leaf_unit(u),
        tag_of(u | 0x100) == tag_of(u),
{
    assert({
        let w = u | 0x100;
        &&& w & 0x100 != 0
        &&& (w >> 10) << ((w & 0x200) >> 6) == (u >> 10) << ((u & 0x200) >> 6)
        &&& w & 0x8000_0000 == u & 0x8000_0000
        &&& w & 0xFF == u & 0xFF
    }) by (bit_vector);
}

/// The bits of a unit.
proof fn lemma_unit_bits(u: u32, c: u8)
    ensures
        (u / 512) % 2 == 1 ==> offset_of(u) == (u / 1024) * 256,
        (u / 512) % 2 == 0 ==> offset_of(u) == u / 1024,
        u & 0x100 != 0 <==> (u / 256) % 2 == 1,
        u & 0x7FFF_FFFF == u % 0x8000_0000,
        u & 0x8000_00FF == c as u32 <==> u < 0x8000_0000 && u % 256 == c,
        (u & 0x200) >> 6 < 32,
        0x8000_0000u32 | 0xFF == 0x8000_00FF,
        u & 0xFF == u % 256,
        u & 0x1FE0_0000 == 0 <==> (u / 0x20_0000) % 256 == 0,
{
    assert({
        let off = (u >> 10) << ((u & 0x200) >> 6);
        &&& (u / 512) % 2 == 1 ==> off == (u / 1024) * 256
        &&& (u / 512) % 2 == 0 ==> off == u / 1024
        &&& (u & 0x100 != 0 <==> (u / 256) % 2 == 1)
        &&& u & 0x7FFF_FFFF == u % 0x8000_0000
        &&& (u & 0x8000_00FF == c as u32 <==> u < 0x8000_0000 && u % 256 == c as u32)
        &&& (u & 0x200) >> 6 < 32
        &&& 0x8000_0000u32 | 0xFF == 0x8000_00FF
        &&& u & 0xFF == u % 256
        &&& (u & 0x1FE0_0000 == 0 <==> (u / 0x20_0000) % 256 == 0)
    }) by (bit_vector);
}

/// What a unit holds, as numbers. The bit with the weight 256 tells whether a node ends a key;
/// the offset is what is above the lowest ten bits, times 256 if the bit with the weight 512 is
/// set; and the label is the lowest byte of a node, which is below 2^31. A leaf holds what is
/// below 2^31 in it.
pub proof fn law_fields(u: u32, c: u8)
    ensures
        offset_of(u) == (if (u / 512) % 2 == 1 {
            (u / 1024) * 256
        } else {
            (u / 1024) as int
        }),
        has_leaf_of(u) <==> (u / 256) % 2 == 1,
        value_of(u) == u % 0x8000_0000,
        label_of(u) == c as u32 <==> u < 0x8000_0000 && u % 256 == c,
{
    lemma_unit_bits(u, c);
}

/// When a node can hold the distance to a base: it is a multiple of 256, or its bits from the
/// one with the weight 2^21 up to that with the weight 2^28 are not set.
pub proof fn law_held(distance: u32)
    ensures
        (distance & 0xFF == 0 || distance & 0x1FE0_0000 == 0) <==> distance % 256 == 0 || (distance / 0x20_0000) % 256
            == 0,
{
    lemma_unit_bits(distance, 0);
}

/// A unit of a finished double array.
#[derive(Clone, Copy, Debug)]
pub struct DoubleArrayUnit(pub u32);

impl DoubleArrayUnit {
    /// Whether this node ends a key.
    pub fn has_leaf(&self) -> (res: bool)
        ensures
            res == has_leaf_of(self.0),
    {
        (self.0 & HAS_LEAF_FLAG) != 0
    }

    /// The value of this leaf.
    pub fn value(&self) -> (res: i32)
        ensures
            res == value_of(self.0),
            res >= 0,
    {
        proof {
            let u = self.0;
            lemma_unit_bits(u, 0);
        }
        (self.0 & VALUE_MASK) as i32
    }

    /// The label of this node; no byte if this is a leaf.
    pub fn label(&self) -> (res: u32)
        ensures
            res == label_of(self.0),
    {
        proof {
            lemma_unit_bits(self.0, 0);
        }
        self.0 & (LEAF_FLAG | LABEL_MASK)
    }

    /// The offset of this node.
    pub fn offset(&self) -> (res: u32)
        ensures
            res == offset_of(self.0),
    {
        proof {
            let u = self.0;
            lemma_unit_bits(u, 0);
        }
        let shift: u32 = (self.0 & OFFSET_FLAG) >> 6;
        (self.0 >> 10) << shift
    }
}

} // verus!
