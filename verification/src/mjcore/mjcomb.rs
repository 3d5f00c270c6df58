use vstd::prelude::*;
use vstd::string::*;
use std::cmp::Ordering;
use vstd::std_specs::cmp::PartialEqSpec;
use bitvec::array::BitArray;
use bitvec::order::Lsb0;
use crate::mjcore::mjtile::MJTile;
use crate::mjcore::mjtile::face_is_yaochuu;
use crate::mjcore::mjtile::face_number;
use crate::mjcore::mjtile::tile_text;

verus! {

/// The kinds of tile combinations: a run of three (`Shuntu`), three of a
/// kind (`Koutu`), four of a kind (`Kantu`) and a pair (`Tuitu`).
#[derive(Debug, Clone, Copy, PartialEq, Eq, Structural, PartialOrd, Ord)]
pub enum MJCombCategory {
    Shuntu,
    Koutu,
    Kantu,
    Tuitu,
}

/// The rank of a combination category in declaration order.
pub open spec fn comb_rank(c: MJCombCategory) -> int {
    match c {
        MJCombCategory::Shuntu => 0,
        MJCombCategory::Koutu => 1,
        MJCombCategory::Kantu => 2,
        MJCombCategory::Tuitu => 3,
    }
}

/// The letter that names a combination category in text.
pub open spec fn comb_letter(c: MJCombCategory) -> char {
    match c {
        MJCombCategory::Shuntu => 'S',
        MJCombCategory::Koutu => 'K',
        MJCombCategory::Kantu => 'G',
        MJCombCategory::Tuitu => 'T',
    }
}

/// The red marks of the (up to four) tiles of a combination, held as the
/// bits of a one-byte `bitvec` bit array in `Lsb0` order; bit `k` marks tile
/// `k`. The array is reached only through the functions below.
#[verifier::external_body]
#[derive(Debug, Copy)]
pub struct MJCombRedFlags(BitArray<[u8; 1], Lsb0>);

impl Clone for MJCombRedFlags {
    fn clone(&self) -> (r: Self)
        ensures
            r == *self,
    {
        *self
    }
}

/// The one byte that the flags' bit array holds.
pub uninterp spec fn red_flag_byte(f: MJCombRedFlags) -> u8;

/// The eight bits of a byte, least significant first.
pub open spec fn byte_bits(b: u8) -> Seq<bool> {
    Seq::new(8, |i: int| (b >> (i as u8)) & 1u8 == 1u8)
}

/// The number of `true` entries of a sequence.
pub open spec fn count_true(s: Seq<bool>) -> nat
    decreases s.len(),
{
    if s.len() == 0 {
        0
    } else {
        count_true(s.drop_last()) + if s.last() { 1nat } else { 0nat }
    }
}

/// `BitArray::from([b])` (bitvec): the bit array that holds the byte `b`.
#[verifier::external_body]
fn bit_array_from_byte(b: u8) -> (r: MJCombRedFlags)
    ensures
        red_flag_byte(r) == b,
{
    MJCombRedFlags(BitArray::<[u8; 1], Lsb0>::from([b]))
}

/// `BitArray::ZERO` (bitvec): the bit array of one zero byte.
#[verifier::external_body]
fn bit_array_zero() -> (r: MJCombRedFlags)
    ensures
        red_flag_byte(r) == 0,
{
    MJCombRedFlags(BitArray::<[u8; 1], Lsb0>::ZERO)
}

/// `BitSlice::count_ones` (bitvec), through the array's `Deref`: the number
/// of set bits among all eight bits of the byte.
#[verifier::external_body]
fn bit_array_count_ones(f: &MJCombRedFlags) -> (r: usize)
    ensures
        r == count_true(byte_bits(red_flag_byte(*f))),
        r <= 8,
{
    f.0.count_ones()
}

/// Indexing a bit array (bitvec `Index<usize>`): bit `pos` of the byte in
/// `Lsb0` order (counted from the least significant bit); `pos` must be
/// below the array's length of eight (the index panics otherwise).
#[verifier::external_body]
fn bit_array_get(f: &MJCombRedFlags, pos: usize) -> (r: bool)
    requires
        pos < 8,
    ensures
        r == byte_bits(red_flag_byte(*f))[pos as int],
{
    f.0[pos]
}

/// The flag byte of four marks, the first in the least significant bit.
pub open spec fn flags_byte(rb1: bool, rb2: bool, rb3: bool, rb4: bool) -> u8 {
    ((if rb4 { 8u8 } else { 0u8 }) | (if rb3 { 4u8 } else { 0u8 }) | (if rb2 { 2u8 } else { 0u8 })
        | (if rb1 { 1u8 } else { 0u8 })) as u8
}

/// The bits of four marks: the marks, then four clear bits.
pub open spec fn flag_bits(rb1: bool, rb2: bool, rb3: bool, rb4: bool) -> Seq<bool> {
    seq![rb1, rb2, rb3, rb4, false, false, false, false]
}

proof fn lemma_flags_byte_bits(rb1: bool, rb2: bool, rb3: bool, rb4: bool)
    ensures
        byte_bits(flags_byte(rb1, rb2, rb3, rb4)) =~= flag_bits(rb1, rb2, rb3, rb4),
{
    let v1: u8 = if rb1 { 1u8 } else { 0u8 };
    let v2: u8 = if rb2 { 2u8 } else { 0u8 };
    let v3: u8 = if rb3 { 4u8 } else { 0u8 };
    let v4: u8 = if rb4 { 8u8 } else { 0u8 };
    let b: u8 = flags_byte(rb1, rb2, rb3, rb4);
    assert(b == (v4 | v3 | v2 | v1));
    assert(((b >> 0u8) & 1u8 == 1u8) == (v1 == 1u8)) by (bit_vector)
        requires b == (v4 | v3 | v2 | v1), v1 == 0 || v1 == 1, v2 == 0 || v2 == 2, v3 == 0 || v3 == 4, v4 == 0 || v4 == 8;
    assert(((b >> 1u8) & 1u8 == 1u8) == (v2 == 2u8)) by (bit_vector)
        requires b == (v4 | v3 | v2 | v1), v1 == 0 || v1 == 1, v2 == 0 || v2 == 2, v3 == 0 || v3 == 4, v4 == 0 || v4 == 8;
    assert(((b >> 2u8) & 1u8 == 1u8) == (v3 == 4u8)) by (bit_vector)
        requires b == (v4 | v3 | v2 | v1), v1 == 0 || v1 == 1, v2 == 0 || v2 == 2, v3 == 0 || v3 == 4, v4 == 0 || v4 == 8;
    assert(((b >> 3u8) & 1u8 == 1u8) == (v4 == 8u8)) by (bit_vector)
        requires b == (v4 | v3 | v2 | v1), v1 == 0 || v1 == 1, v2 == 0 || v2 == 2, v3 == 0 || v3 == 4, v4 == 0 || v4 == 8;
    assert(b < 16) by (bit_vector)
        requires b == (v4 | v3 | v2 | v1), v1 == 0 || v1 == 1, v2 == 0 || v2 == 2, v3 == 0 || v3 == 4, v4 == 0 || v4 == 8;
    assert forall|i: u8| 4 <= i < 8 implies (b >> i) & 1u8 == 0u8 by {
        assert((b >> i) & 1u8 == 0u8) by (bit_vector)
            requires b < 16, 4 <= i < 8;
    }
    assert((b >> 4u8) & 1u8 == 0u8);
    assert((b >> 5u8) & 1u8 == 0u8);
    assert((b >> 6u8) & 1u8 == 0u8);
    assert((b >> 7u8) & 1u8 == 0u8);
}

proof fn lemma_zero_bits()
    ensures
        byte_bits(0) =~= flag_bits(false, false, false, false),
{
    lemma_flags_byte_bits(false, false, false, false);
    assert(flags_byte(false, false, false, false) == 0u8) by (bit_vector);
}

impl MJCombRedFlags {
    /// The eight bits of the flag byte, least significant first.
    pub open spec fn bits(self) -> Seq<bool> {
        byte_bits(red_flag_byte(self))
    }

    fn new(flags: u8) -> (r: Self)
        ensures
            r.bits() == byte_bits(flags),
    {
        bit_array_from_byte(flags)
    }

    /// No tile marked red.
    pub fn none() -> (r: Self)
        ensures
            r.bits() == flag_bits(false, false, false, false),
    {
        proof {
            lemma_zero_bits();
        }
        bit_array_zero()
    }

    /// Marks from four booleans, tile 1 first.
    pub fn from_bools(rb1: bool, rb2: bool, rb3: bool, rb4: bool) -> (r: Self)
        ensures
            r.bits() == flag_bits(rb1, rb2, rb3, rb4),
    {
        let v1: u8 = if rb1 { 1 } else { 0 };
        let v2: u8 = if rb2 { 2 } else { 0 };
        let v3: u8 = if rb3 { 4 } else { 0 };
        let v4: u8 = if rb4 { 8 } else { 0 };
        proof {
            lemma_flags_byte_bits(rb1, rb2, rb3, rb4);
        }
        MJCombRedFlags::new(v4 | v3 | v2 | v1)
    }

    /// Marks from four counts: a tile is marked when its count is above zero.
    pub fn from_counts(r1: u8, r2: u8, r3: u8, r4: u8) -> (r: Self)
        ensures
            r.bits() == flag_bits(r1 > 0, r2 > 0, r3 > 0, r4 > 0),
    {
        MJCombRedFlags::from_bools(r1 > 0, r2 > 0, r3 > 0, r4 > 0)
    }
}

/// A tile combination: its category, its first (lowest) tile, and the red
/// marks of its tiles.
pub struct MJComb {
    category_: MJCombCategory,
    first_tile_: MJTile,
    red_flags_: MJCombRedFlags,
}

impl Clone for MJComb {
    fn clone(&self) -> (r: Self)
        ensures
            r == *self,
    {
        MJComb { category_: self.category_, first_tile_: self.first_tile_, red_flags_: self.red_flags_ }
    }
}

impl MJComb {
    /// The combination's category.
    pub closed spec fn spec_category(self) -> MJCombCategory {
        self.category_
    }

    /// The combination's first tile.
    pub closed spec fn spec_first_tile(self) -> MJTile {
        self.first_tile_
    }

    /// The combination's red marks.
    pub closed spec fn spec_red_flags(self) -> MJCombRedFlags {
        self.red_flags_
    }

    /// A combination of the given category, first tile and red marks.
    pub fn new(category: MJCombCategory, first_tile: MJTile, red_flags: MJCombRedFlags) -> (r: Self)
        ensures
            r.spec_category() == category,
            r.spec_first_tile() == first_tile,
            r.spec_red_flags() == red_flags,
    {
        MJComb { category_: category, first_tile_: first_tile, red_flags_: red_flags }
    }

    /// The combination's category.
    pub fn category(&self) -> (r: MJCombCategory)
        ensures
            r == self.spec_category(),
    {
        self.category_
    }

    /// The combination's first tile.
    pub fn first_tile(&self) -> (r: MJTile)
        ensures
            r == self.spec_first_tile(),
    {
        self.first_tile_
    }

    /// The combination's red marks.
    pub fn red_flags(&self) -> (r: MJCombRedFlags)
        ensures
            r == self.spec_red_flags(),
    {
        self.red_flags_
    }

    /// The number of set red-mark bits.
    pub fn red_count(&self) -> (r: u8)
        ensures
            r == count_true(self.spec_red_flags().bits()),
    {
        let n = bit_array_count_ones(&self.red_flags_);
        n as u8
    }

    /// Whether tile `pos` of the combination is marked red.
    pub fn is_tile_red(&self, pos: u8) -> (r: bool)
        requires
            pos < 8,
        ensures
            r == self.spec_red_flags().bits()[pos as int],
    {
        bit_array_get(&self.red_flags_, pos as usize)
    }

    /// Whether the combination is three or four of a kind.
    pub fn is_general_koutu(&self) -> (r: bool)
        ensures
            r == (self.spec_category() == MJCombCategory::Koutu || self.spec_category()
                == MJCombCategory::Kantu),
    {
        self.category_ == MJCombCategory::Koutu || self.category_ == MJCombCategory::Kantu
    }

    /// Whether the combination holds a terminal or an honour: its first tile
    /// is one, or it is a run starting at 7.
    pub fn is_chanta(&self) -> (r: bool)
        ensures
            r == (face_is_yaochuu(self.spec_first_tile().face()) || (self.spec_category()
                == MJCombCategory::Shuntu && face_number(self.spec_first_tile().face()) == 7)),
    {
        self.first_tile_.is_yaochuuhai() || (self.category_ == MJCombCategory::Shuntu
            && self.first_tile_.number() == 7)
    }
}

/// The text of a combination: its first tile's text, then its category's
/// letter.
pub open spec fn comb_text(c: MJComb) -> Seq<char> {
    tile_text(c.spec_first_tile().face(), c.spec_first_tile().red()) + seq![comb_letter(c.spec_category())]
}

impl MJComb {
    /// The combination's text (see `comb_text`).
    pub fn to_string(&self) -> (r: String)
        ensures
            r@ == comb_text(*self),
    {
        let mut s = self.first_tile_.to_string();
        match self.category_ {
            MJCombCategory::Shuntu => {
                proof { reveal_strlit("S"); }
                s.append("S");
            },
            MJCombCategory::Koutu => {
                proof { reveal_strlit("K"); }
                s.append("K");
            },
            MJCombCategory::Kantu => {
                proof { reveal_strlit("G"); }
                s.append("G");
            },
            MJCombCategory::Tuitu => {
                proof { reveal_strlit("T"); }
                s.append("T");
            },
        }
        s
    }
}

impl PartialEq for MJComb {
    fn eq(&self, other: &Self) -> (r: bool) {
        self.category_ == other.category_ && self.first_tile_.face_code() == other.first_tile_.face_code()
    }
}

impl vstd::std_specs::cmp::PartialEqSpecImpl for MJComb {
    open spec fn obeys_eq_spec() -> bool {
        true
    }

    open spec fn eq_spec(&self, other: &Self) -> bool {
        self.spec_category() == other.spec_category() && self.spec_first_tile().face()
            == other.spec_first_tile().face()
    }
}

impl Eq for MJComb {
}

/// Combinations are ordered by their first tile's face, then by category.
pub open spec fn comb_order(a: MJComb, b: MJComb) -> Option<Ordering> {
    let fa = a.spec_first_tile().face();
    let fb = b.spec_first_tile().face();
    let ra = comb_rank(a.spec_category());
    let rb = comb_rank(b.spec_category());
    if fa < fb {
        Some(Ordering::Less)
    } else if fa > fb {
        Some(Ordering::Greater)
    } else if ra < rb {
        Some(Ordering::Less)
    } else if ra > rb {
        Some(Ordering::Greater)
    } else {
        Some(Ordering::Equal)
    }
}

fn rank(c: MJCombCategory) -> (r: u8)
    ensures
        r == comb_rank(c),
{
    match c {
        MJCombCategory::Shuntu => 0,
        MJCombCategory::Koutu => 1,
        MJCombCategory::Kantu => 2,
        MJCombCategory::Tuitu => 3,
    }
}

impl PartialOrd for MJComb {
    fn partial_cmp(&self, other: &Self) -> (r: Option<Ordering>) {
        let fa = self.first_tile_.face_code();
        let fb = other.first_tile_.face_code();
        let ra = rank(self.category_);
        let rb = rank(other.category_);
        if fa < fb {
            Some(Ordering::Less)
        } else if fa > fb {
            Some(Ordering::Greater)
        } else if ra < rb {
            Some(Ordering::Less)
        } else if ra > rb {
            Some(Ordering::Greater)
        } else {
            Some(Ordering::Equal)
        }
    }
}

impl vstd::std_specs::cmp::PartialOrdSpecImpl for MJComb {
    open spec fn obeys_partial_cmp_spec() -> bool {
        true
    }

    open spec fn partial_cmp_spec(&self, other: &Self) -> Option<Ordering> {
        comb_order(*self, *other)
    }
}

/// Combinations compare equal exactly when `partial_cmp` finds them equal,
/// and the order is antisymmetric; red marks play no part in either.
pub proof fn law_comb_order_consistent(a: MJComb, b: MJComb)
    ensures
        (comb_order(a, b) == Some(Ordering::Equal)) == a.eq_spec(&b),
        (comb_order(a, b) == Some(Ordering::Less)) == (comb_order(b, a) == Some(Ordering::Greater)),
        comb_order(a, b) is Some,
{
}

/// The first tile's face decides the order: a combination whose first face
/// is lower comes first, whatever the categories. Only between equal first
/// faces does the category decide, in the order run, three of a kind, four
/// of a kind, pair.
pub proof fn law_comb_order_by_face_then_category(a: MJComb, b: MJComb)
    ensures
        a.spec_first_tile().face() < b.spec_first_tile().face() ==> comb_order(a, b) == Some(Ordering::Less),
        a.spec_first_tile().face() > b.spec_first_tile().face() ==> comb_order(a, b) == Some(Ordering::Greater),
        a.spec_first_tile().face() == b.spec_first_tile().face() ==> {
            &&& a.spec_category() == b.spec_category() ==> comb_order(a, b) == Some(Ordering::Equal)
            &&& (a.spec_category() == MJCombCategory::Shuntu && b.spec_category() != MJCombCategory::Shuntu)
                ==> comb_order(a, b) == Some(Ordering::Less)
            &&& (a.spec_category() == MJCombCategory::Koutu && (b.spec_category() == MJCombCategory::Kantu
                || b.spec_category() == MJCombCategory::Tuitu)) ==> comb_order(a, b) == Some(Ordering::Less)
            &&& (a.spec_category() == MJCombCategory::Kantu && b.spec_category() == MJCombCategory::Tuitu)
                ==> comb_order(a, b) == Some(Ordering::Less)
        },
{
}

/// A combination's text is its first tile's text, then one letter for its
/// category: `S` for a run, `K` for three of a kind, `G` for four of a kind,
/// `T` for a pair.
pub proof fn law_comb_text_letter(c: MJComb)
    ensures
        comb_text(c).len() == tile_text(c.spec_first_tile().face(), c.spec_first_tile().red()).len() + 1,
        comb_text(c).drop_last() == tile_text(c.spec_first_tile().face(), c.spec_first_tile().red()),
        c.spec_category() == MJCombCategory::Shuntu ==> comb_text(c).last() == 'S',
        c.spec_category() == MJCombCategory::Koutu ==> comb_text(c).last() == 'K',
        c.spec_category() == MJCombCategory::Kantu ==> comb_text(c).last() == 'G',
        c.spec_category() == MJCombCategory::Tuitu ==> comb_text(c).last() == 'T',
{
    let t = tile_text(c.spec_first_tile().face(), c.spec_first_tile().red());
    assert(comb_text(c).drop_last() =~= t);
}

/// The red count of marks built from four booleans is the number of them
/// that are set, and each mark reads back.
pub proof fn law_red_flags_read_back(rb1: bool, rb2: bool, rb3: bool, rb4: bool)
    ensures
        count_true(flag_bits(rb1, rb2, rb3, rb4)) == (if rb1 { 1nat } else { 0nat }) + (if rb2 { 1nat } else { 0nat })
            + (if rb3 { 1nat } else { 0nat }) + (if rb4 { 1nat } else { 0nat }),
        flag_bits(rb1, rb2, rb3, rb4).len() == 8,
        flag_bits(rb1, rb2, rb3, rb4)[0] == rb1,
        flag_bits(rb1, rb2, rb3, rb4)[1] == rb2,
        flag_bits(rb1, rb2, rb3, rb4)[2] == rb3,
        flag_bits(rb1, rb2, rb3, rb4)[3] == rb4,
{
    let s = flag_bits(rb1, rb2, rb3, rb4);
    reveal_with_fuel(count_true, 9);
    assert(s.drop_last() =~= seq![rb1, rb2, rb3, rb4, false, false, false]);
    assert(s.drop_last().drop_last() =~= seq![rb1, rb2, rb3, rb4, false, false]);
    assert(s.drop_last().drop_last().drop_last() =~= seq![rb1, rb2, rb3, rb4, false]);
    assert(s.drop_last().drop_last().drop_last().drop_last() =~= seq![rb1, rb2, rb3, rb4]);
    assert(seq![rb1, rb2, rb3, rb4].drop_last() =~= seq![rb1, rb2, rb3]);
    assert(seq![rb1, rb2, rb3].drop_last() =~= seq![rb1, rb2]);
    assert(seq![rb1, rb2].drop_last() =~= seq![rb1]);
    assert(seq![rb1].drop_last() =~= Seq::<bool>::empty());
}

/// `arrayvec::ArrayVec`: a vector of at most `CAP` items held inline.
#[verifier::external_type_specification]
#[verifier::external_body]
#[verifier::reject_recursive_types(T)]
pub struct ExArrayVec<T, const CAP: usize>(arrayvec::ArrayVec<T, CAP>);

/// A sequence of at most five combinations (a winning hand's).
pub type MJCombSeq = arrayvec::ArrayVec<MJComb, 5>;

} // verus!
