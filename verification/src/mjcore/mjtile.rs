use vstd::prelude::*;
use vstd::string::*;
use std::cmp::Ordering;
use vstd::std_specs::cmp::PartialEqSpec;
use vstd::std_specs::cmp::PartialOrdSpec;

verus! {

/// The ten kinds of tiles: three suits (characters, bamboo, circles), the
/// four winds and the three dragons.
#[derive(Debug, Clone, Copy, PartialEq, Eq, Structural)]
pub enum MJTileCategory {
    Man,
    So,
    Pin,
    Ton,
    Nan,
    Shya,
    Pei,
    Tyu,
    Haku,
    Hatu,
}

/// The index of a category in declaration order (`Man` is 0, `Hatu` is 9).
pub open spec fn category_index(c: MJTileCategory) -> u8 {
    match c {
        MJTileCategory::Man => 0,
        MJTileCategory::So => 1,
        MJTileCategory::Pin => 2,
        MJTileCategory::Ton => 3,
        MJTileCategory::Nan => 4,
        MJTileCategory::Shya => 5,
        MJTileCategory::Pei => 6,
        MJTileCategory::Tyu => 7,
        MJTileCategory::Haku => 8,
        MJTileCategory::Hatu => 9,
    }
}

/// The category with a given index, where there is one.
pub open spec fn category_of_index(i: u8) -> Option<MJTileCategory> {
    if i == 0 { Some(MJTileCategory::Man) }
    else if i == 1 { Some(MJTileCategory::So) }
    else if i == 2 { Some(MJTileCategory::Pin) }
    else if i == 3 { Some(MJTileCategory::Ton) }
    else if i == 4 { Some(MJTileCategory::Nan) }
    else if i == 5 { Some(MJTileCategory::Shya) }
    else if i == 6 { Some(MJTileCategory::Pei) }
    else if i == 7 { Some(MJTileCategory::Tyu) }
    else if i == 8 { Some(MJTileCategory::Haku) }
    else if i == 9 { Some(MJTileCategory::Hatu) }
    else { None }
}

/// A category is a suit (its tiles carry numbers) when its index is below 3.
pub open spec fn is_suit_index(i: u8) -> bool {
    i < 3
}

impl MJTileCategory {
    /// The category's index in declaration order.
    pub fn index(self) -> (r: u8)
        ensures
            r == category_index(self),
            r <= 9,
    {
        match self {
            MJTileCategory::Man => 0,
            MJTileCategory::So => 1,
            MJTileCategory::Pin => 2,
            MJTileCategory::Ton => 3,
            MJTileCategory::Nan => 4,
            MJTileCategory::Shya => 5,
            MJTileCategory::Pei => 6,
            MJTileCategory::Tyu => 7,
            MJTileCategory::Haku => 8,
            MJTileCategory::Hatu => 9,
        }
    }

    /// The category with index `i`, or `None` when `i` is above 9.
    pub fn from_repr(i: u8) -> (r: Option<MJTileCategory>)
        ensures
            r == category_of_index(i),
    {
        match i {
            0 => Some(MJTileCategory::Man),
            1 => Some(MJTileCategory::So),
            2 => Some(MJTileCategory::Pin),
            3 => Some(MJTileCategory::Ton),
            4 => Some(MJTileCategory::Nan),
            5 => Some(MJTileCategory::Shya),
            6 => Some(MJTileCategory::Pei),
            7 => Some(MJTileCategory::Tyu),
            8 => Some(MJTileCategory::Haku),
            9 => Some(MJTileCategory::Hatu),
            _ => None,
        }
    }
}

/// Index and category correspond one to one: `from_repr` undoes `index`.
pub proof fn law_category_index_roundtrip(c: MJTileCategory)
    ensures
        category_of_index(category_index(c)) == Some(c),
        category_index(c) <= 9,
{
}

/// The face code of a tile of category `c` with number `n`: ten times the
/// category's index, plus the number for the suits.
pub open spec fn spec_face_of(c: MJTileCategory, n: u8) -> int {
    if is_suit_index(category_index(c)) {
        category_index(c) * 10 + n
    } else {
        category_index(c) * 10
    }
}

/// The number that a face code carries.
pub open spec fn face_number(face: u8) -> u8 {
    face % 10
}

/// Whether a face code belongs to one of the three suits.
pub open spec fn face_is_suit(face: u8) -> bool {
    is_suit_index(face / 10)
}

/// Whether a face is a terminal or an honour: an honour, or a number 1 or 9.
pub open spec fn face_is_yaochuu(face: u8) -> bool {
    !face_is_suit(face) || face_number(face) == 1 || face_number(face) == 9
}

/// Whether face `a` comes just before face `b` in the same suit.
pub open spec fn face_is_prev(a: u8, b: u8) -> bool {
    &&& a / 10 == b / 10
    &&& face_is_suit(a)
    &&& face_number(a) + 1 == face_number(b)
}

/// A tile: its face (category and number) and whether it is a red five.
///
/// The face is ten times the category's index plus, for the suits, the
/// number; it is never above 99, so it always names a category.
#[derive(Clone, Copy)]
pub struct MJTile {
    face_: u8,
    is_red_: bool,
}

/// The error of parsing a tile from text.
#[derive(Debug, PartialEq, Eq, Structural)]
pub struct MJTileParseError;

impl MJTile {
    #[verifier::type_invariant]
    spec fn wf(self) -> bool {
        self.face_ <= 99
    }

    /// The tile's face code.
    pub closed spec fn face(self) -> u8 {
        self.face_
    }

    /// Whether the tile is marked red.
    pub closed spec fn red(self) -> bool {
        self.is_red_
    }

    /// The tile's category, read from its face.
    pub open spec fn spec_category(self) -> MJTileCategory {
        category_of_index(self.face() / 10)->0
    }

    /// A tile of category `cate`; the number counts for the suits alone.
    pub fn new(cate: MJTileCategory, number: u8, isred: bool) -> (r: Self)
        requires
            is_suit_index(category_index(cate)) ==> category_index(cate) * 10 + number <= 99,
        ensures
            r.face() == spec_face_of(cate, number),
            r.red() == isred,
    {
        let idx = cate.index();
        let face_: u8 = if idx < 3 {
            idx * 10 + number
        } else {
            idx * 10
        };
        MJTile { face_, is_red_: isred }
    }

    /// Marks the tile red.
    pub fn set_red(&mut self)
        ensures
            final(self).face() == old(self).face(),
            final(self).red(),
    {
        proof {
            use_type_invariant(&*self);
        }
        self.is_red_ = true;
    }

    /// Clears the red mark.
    pub fn clear_red(&mut self)
        ensures
            final(self).face() == old(self).face(),
            !final(self).red(),
    {
        proof {
            use_type_invariant(&*self);
        }
        self.is_red_ = false;
    }

    /// The face code, never above 99.
    pub fn face_code(self) -> (r: u8)
        ensures
            r == self.face(),
            r <= 99,
    {
        proof {
            use_type_invariant(&self);
        }
        self.face_
    }

    /// The tile's category.
    pub fn category(self) -> (r: MJTileCategory)
        ensures
            r == self.spec_category(),
            category_of_index(self.face() / 10) == Some(r),
    {
        proof {
            use_type_invariant(&self);
        }
        match MJTileCategory::from_repr(self.face_ / 10) {
            Some(c) => c,
            None => MJTileCategory::Man,
        }
    }

    /// The number on the tile (0 for the honours built by `new`).
    pub fn number(self) -> (r: u8)
        ensures
            r == face_number(self.face()),
    {
        self.face_ % 10
    }

    /// Whether the tile is marked red.
    pub fn is_red(self) -> (r: bool)
        ensures
            r == self.red(),
    {
        self.is_red_
    }

    /// Whether the tile belongs to a suit.
    pub fn is_shiuhai(self) -> (r: bool)
        ensures
            r == face_is_suit(self.face()),
    {
        let c = self.category();
        match c {
            MJTileCategory::Man | MJTileCategory::So | MJTileCategory::Pin => true,
            _ => false,
        }
    }

    /// Whether the tile is an honour (a wind or a dragon).
    pub fn is_jihai(&self) -> (r: bool)
        ensures
            r == !face_is_suit(self.face()),
    {
        !self.is_shiuhai()
    }

    /// Whether the tile is an honour or a terminal (number 1 or 9).
    pub fn is_yaochuuhai(&self) -> (r: bool)
        ensures
            r == face_is_yaochuu(self.face()),
    {
        self.is_jihai() || (self.number() == 1 || self.number() == 9)
    }

    /// Whether `next` is the tile that follows this one in the same suit.
    pub fn is_number_prev_to(self, next: MJTile) -> (r: bool)
        ensures
            r == face_is_prev(self.face(), next.face()),
    {
        self.category() == next.category() && self.is_shiuhai() && self.number() + 1 == next.number()
    }
}

/// The letter that names a category in a tile's text: `M`, `S`, `P` for the
/// suits, `T`, `N`, `S`, `P` for the winds, `Z`, `B`, `F` for the dragons.
pub open spec fn category_letter(i: u8) -> char {
    if i == 0 { 'M' }
    else if i == 1 { 'S' }
    else if i == 2 { 'P' }
    else if i == 3 { 'T' }
    else if i == 4 { 'N' }
    else if i == 5 { 'S' }
    else if i == 6 { 'P' }
    else if i == 7 { 'Z' }
    else if i == 8 { 'B' }
    else { 'F' }
}

/// The digit character of a number from 0 to 9.
pub open spec fn digit_char(n: u8) -> char {
    if n == 0 { '0' }
    else if n == 1 { '1' }
    else if n == 2 { '2' }
    else if n == 3 { '3' }
    else if n == 4 { '4' }
    else if n == 5 { '5' }
    else if n == 6 { '6' }
    else if n == 7 { '7' }
    else if n == 8 { '8' }
    else { '9' }
}

/// The text of a tile, always four characters: an honour is its letter and
/// three NUL characters; a suited tile is its digit, its suit letter, `r` or
/// NUL for the red mark, and a NUL.
pub open spec fn tile_text(face: u8, red: bool) -> Seq<char> {
    if face_is_suit(face) {
        seq![digit_char(face_number(face)), category_letter(face / 10), if red { 'r' } else { '\0' }, '\0']
    } else {
        seq![category_letter(face / 10), '\0', '\0', '\0']
    }
}

/// Whether parsing `b` is defined: a suited tile's digit byte is not below
/// `'0'` and the face it gives is at most 99.
pub open spec fn parse_defined(b: Seq<u8>) -> bool {
    (2 <= b.len() <= 3 && (b[1] == 77u8 || b[1] == 83u8 || b[1] == 80u8)) ==> {
        &&& b[0] >= 48
        &&& suit_index_of_letter(b[1]) * 10 + (b[0] - 48) <= 99
    }
}

/// The suit index of a suit letter byte (`M`, `S`, `P`).
pub open spec fn suit_index_of_letter(l: u8) -> int {
    if l == 77u8 { 0 } else if l == 83u8 { 1 } else { 2 }
}

/// The honour face named by a single letter byte, if any.
pub open spec fn honour_face_of_letter(l: u8) -> Option<u8> {
    if l == 84u8 { Some(30u8) }
    else if l == 78u8 { Some(40u8) }
    else if l == 83u8 { Some(50u8) }
    else if l == 80u8 { Some(60u8) }
    else if l == 90u8 { Some(70u8) }
    else if l == 66u8 { Some(80u8) }
    else if l == 70u8 { Some(90u8) }
    else { None }
}

/// The tile (face and red mark) that the bytes `b` name, if any: one honour
/// letter; or a digit byte, a suit letter and an optional `r` (any other
/// third byte gives a tile that is not red).
pub open spec fn parse_tile(b: Seq<u8>) -> Option<(u8, bool)> {
    if b.len() == 1 {
        match honour_face_of_letter(b[0]) {
            Some(f) => Some((f, false)),
            None => None,
        }
    } else if 2 <= b.len() <= 3 {
        if b[1] == 77u8 || b[1] == 83u8 || b[1] == 80u8 {
            Some(((suit_index_of_letter(b[1]) * 10 + (b[0] - 48)) as u8, b.len() == 3 && b[2] == 114u8))
        } else {
            None
        }
    } else {
        None
    }
}

/// A one-character string literal for each character that a tile's text uses.
fn char_str(c: char) -> (r: &'static str)
    requires
        c == '0' || c == '1' || c == '2' || c == '3' || c == '4' || c == '5' || c == '6'
            || c == '7' || c == '8' || c == '9' || c == 'M' || c == 'S' || c == 'P'
            || c == 'T' || c == 'N' || c == 'Z' || c == 'B' || c == 'F' || c == 'r'
            || c == '\0',
    ensures
        r@ == seq![c],
{
    if c == '0' { proof { reveal_strlit("0"); } "0" }
    else if c == '1' { proof { reveal_strlit("1"); } "1" }
    else if c == '2' { proof { reveal_strlit("2"); } "2" }
    else if c == '3' { proof { reveal_strlit("3"); } "3" }
    else if c == '4' { proof { reveal_strlit("4"); } "4" }
    else if c == '5' { proof { reveal_strlit("5"); } "5" }
    else if c == '6' { proof { reveal_strlit("6"); } "6" }
    else if c == '7' { proof { reveal_strlit("7"); } "7" }
    else if c == '8' { proof { reveal_strlit("8"); } "8" }
    else if c == '9' { proof { reveal_strlit("9"); } "9" }
    else if c == 'M' { proof { reveal_strlit("M"); } "M" }
    else if c == 'S' { proof { reveal_strlit("S"); } "S" }
    else if c == 'P' { proof { reveal_strlit("P"); } "P" }
    else if c == 'T' { proof { reveal_strlit("T"); } "T" }
    else if c == 'N' { proof { reveal_strlit("N"); } "N" }
    else if c == 'Z' { proof { reveal_strlit("Z"); } "Z" }
    else if c == 'B' { proof { reveal_strlit("B"); } "B" }
    else if c == 'F' { proof { reveal_strlit("F"); } "F" }
    else if c == 'r' { proof { reveal_strlit("r"); } "r" }
    else { proof { reveal_strlit("\0"); } "\0" }
}

impl MJTile {
    /// The tile's text (see `tile_text`).
    pub fn to_string(&self) -> (r: String)
        ensures
            r@ == tile_text(self.face(), self.red()),
    {
        proof {
            use_type_invariant(self);
        }
        let idx = self.face_ / 10;
        let letter: char = if idx == 0 { 'M' }
            else if idx == 1 { 'S' }
            else if idx == 2 { 'P' }
            else if idx == 3 { 'T' }
            else if idx == 4 { 'N' }
            else if idx == 5 { 'S' }
            else if idx == 6 { 'P' }
            else if idx == 7 { 'Z' }
            else if idx == 8 { 'B' }
            else { 'F' };
        let mut s = String::new();
        if self.is_jihai() {
            s.append(char_str(letter));
            s.append(char_str('\0'));
            s.append(char_str('\0'));
            s.append(char_str('\0'));
        } else {
            let n = self.number();
            let d: char = if n == 0 { '0' }
                else if n == 1 { '1' }
                else if n == 2 { '2' }
                else if n == 3 { '3' }
                else if n == 4 { '4' }
                else if n == 5 { '5' }
                else if n == 6 { '6' }
                else if n == 7 { '7' }
                else if n == 8 { '8' }
                else { '9' };
            s.append(char_str(d));
            s.append(char_str(letter));
            s.append(char_str(if self.is_red_ { 'r' } else { '\0' }));
            s.append(char_str('\0'));
        }
        proof {
            assert(s@ =~= tile_text(self.face(), self.red()));
        }
        s
    }

    /// Parses a tile from its bytes (see `parse_tile`).
    pub fn from_str(s: &str) -> (r: Result<MJTile, MJTileParseError>)
        requires
            parse_defined(s.spec_bytes()),
        ensures
            match r {
                Ok(t) => parse_tile(s.spec_bytes()) == Some((t.face(), t.red())),
                Err(_) => parse_tile(s.spec_bytes()) is None,
            },
    {
        let len = s.len();
        let bytes = s.as_bytes();
        if len >= 1 && len <= 3 {
            if len == 1 {
                let b0 = bytes[0];
                return if b0 == 84u8 {
                    Ok(MJTile::new(MJTileCategory::Ton, 0, false))
                } else if b0 == 78u8 {
                    Ok(MJTile::new(MJTileCategory::Nan, 0, false))
                } else if b0 == 83u8 {
                    Ok(MJTile::new(MJTileCategory::Shya, 0, false))
                } else if b0 == 80u8 {
                    Ok(MJTile::new(MJTileCategory::Pei, 0, false))
                } else if b0 == 90u8 {
                    Ok(MJTile::new(MJTileCategory::Tyu, 0, false))
                } else if b0 == 66u8 {
                    Ok(MJTile::new(MJTileCategory::Haku, 0, false))
                } else if b0 == 70u8 {
                    Ok(MJTile::new(MJTileCategory::Hatu, 0, false))
                } else {
                    Err(MJTileParseError)
                };
            } else {
                let isred = bytes.len() == 3 && bytes[2] == 114u8;
                let b1 = bytes[1];
                return if b1 == 77u8 {
                    Ok(MJTile::new(MJTileCategory::Man, bytes[0] - 48u8, isred))
                } else if b1 == 83u8 {
                    Ok(MJTile::new(MJTileCategory::So, bytes[0] - 48u8, isred))
                } else if b1 == 80u8 {
                    Ok(MJTile::new(MJTileCategory::Pin, bytes[0] - 48u8, isred))
                } else {
                    Err(MJTileParseError)
                };
            }
        }
        Err(MJTileParseError)
    }

    /// The same as `from_str`.
    pub fn try_from(value: &str) -> (r: Result<MJTile, MJTileParseError>)
        requires
            parse_defined(value.spec_bytes()),
        ensures
            match r {
                Ok(t) => parse_tile(value.spec_bytes()) == Some((t.face(), t.red())),
                Err(_) => parse_tile(value.spec_bytes()) is None,
            },
    {
        MJTile::from_str(value)
    }
}

impl PartialEq for MJTile {
    fn eq(&self, other: &Self) -> (r: bool) {
        self.face_ == other.face_
    }
}

impl vstd::std_specs::cmp::PartialEqSpecImpl for MJTile {
    open spec fn obeys_eq_spec() -> bool {
        true
    }

    open spec fn eq_spec(&self, other: &Self) -> bool {
        self.face() == other.face()
    }
}

impl Eq for MJTile {
}

impl PartialOrd for MJTile {
    fn partial_cmp(&self, other: &Self) -> (r: Option<Ordering>) {
        if self.face_ < other.face_ {
            Some(Ordering::Less)
        } else if self.face_ > other.face_ {
            Some(Ordering::Greater)
        } else {
            Some(Ordering::Equal)
        }
    }
}

impl vstd::std_specs::cmp::PartialOrdSpecImpl for MJTile {
    open spec fn obeys_partial_cmp_spec() -> bool {
        true
    }

    open spec fn partial_cmp_spec(&self, other: &Self) -> Option<Ordering> {
        if self.face() < other.face() {
            Some(Ordering::Less)
        } else if self.face() > other.face() {
            Some(Ordering::Greater)
        } else {
            Some(Ordering::Equal)
        }
    }
}

impl From<MJTile> for u8 {
    fn from(value: MJTile) -> (r: u8) {
        value.face_
    }
}

impl vstd::std_specs::convert::FromSpecImpl<MJTile> for u8 {
    open spec fn obeys_from_spec() -> bool {
        true
    }

    open spec fn from_spec(v: MJTile) -> u8 {
        v.face()
    }
}

/// A tile built from a category and a number reads back that category, and
/// that number for the suits (0 for the honours); a suit's number must be a
/// single digit, as a larger one runs into the next category.
pub proof fn law_new_reads_back(c: MJTileCategory, n: u8)
    requires
        is_suit_index(category_index(c)) ==> n <= 9,
    ensures
        category_of_index((spec_face_of(c, n) as u8) / 10) == Some(c),
        face_number(spec_face_of(c, n) as u8) == if is_suit_index(category_index(c)) { n } else { 0 },
        face_is_suit(spec_face_of(c, n) as u8) == is_suit_index(category_index(c)),
{
    let i = category_index(c) as int;
    if is_suit_index(category_index(c)) {
        assert((i * 10 + n) / 10 == i);
        assert((i * 10 + n) % 10 == n);
    } else {
        assert((i * 10) / 10 == i);
        assert((i * 10) % 10 == 0);
    }
}

/// Tiles compare equal exactly when `partial_cmp` finds them equal, and the
/// order is antisymmetric; the red mark plays no part in either.
pub proof fn law_tile_order_consistent(a: MJTile, b: MJTile)
    ensures
        (a.partial_cmp_spec(&b) == Some(Ordering::Equal)) == a.eq_spec(&b),
        (a.partial_cmp_spec(&b) == Some(Ordering::Less)) == (b.partial_cmp_spec(&a) == Some(Ordering::Greater)),
        a.partial_cmp_spec(&b) is Some,
{
}

/// A text without its trailing NUL characters.
pub open spec fn trim_nul(t: Seq<char>) -> Seq<char>
    decreases t.len(),
{
    if t.len() > 0 && t.last() == '\0' {
        trim_nul(t.drop_last())
    } else {
        t
    }
}

/// The bytes of an ASCII text.
pub open spec fn text_bytes(t: Seq<char>) -> Seq<u8> {
    t.map_values(|c: char| c as u8)
}

proof fn lemma_digit_char_byte(n: u8)
    requires
        n <= 9,
    ensures
        digit_char(n) as u8 == 48 + n,
{
}

/// A tile's text without its trailing NULs parses back to the tile: the
/// same face, and red where the tile is red and suited (an honour's text
/// carries no red mark). Stated for the faces that tiles are built with: a
/// suit's number, or an honour's category alone.
pub proof fn law_tile_text_round_trip(face: u8, red: bool)
    requires
        face <= 99,
        face_is_suit(face) || face % 10 == 0,
    ensures
        parse_tile(text_bytes(trim_nul(tile_text(face, red)))) == Some((face, red && face_is_suit(face))),
{
    let t = tile_text(face, red);
    let idx = face / 10;
    if face_is_suit(face) {
        let n = face % 10;
        lemma_digit_char_byte(n);
        if red {
            assert(trim_nul(t) == t.drop_last()) by {
                reveal_with_fuel(trim_nul, 3);
                assert(t.len() == 4);
                assert(t.drop_last().len() == 3);
                assert(t.last() == '\0');
                assert(t.drop_last().last() == 'r');
            }
            let b = text_bytes(t.drop_last());
            assert(b.len() == 3);
            assert(b[0] == 48 + n);
            assert(b[2] == 114u8);
            assert(idx == 0 || idx == 1 || idx == 2);
            assert(b[1] == 77u8 || b[1] == 83u8 || b[1] == 80u8);
            assert(suit_index_of_letter(b[1]) == idx);
        } else {
            assert(trim_nul(t) == t.drop_last().drop_last()) by {
                reveal_with_fuel(trim_nul, 4);
                assert(t.len() == 4);
                assert(t.drop_last().len() == 3);
                assert(t.drop_last().drop_last().len() == 2);
                assert(t.last() == '\0');
                assert(t.drop_last().last() == '\0');
                assert(t.drop_last().drop_last().last() != '\0');
            }
            let b = text_bytes(t.drop_last().drop_last());
            assert(b.len() == 2);
            assert(b[0] == 48 + n);
            assert(idx == 0 || idx == 1 || idx == 2);
            assert(b[1] == 77u8 || b[1] == 83u8 || b[1] == 80u8);
            assert(suit_index_of_letter(b[1]) == idx);
        }
    } else {
        assert(trim_nul(t) == seq![category_letter(idx)]) by {
            reveal_with_fuel(trim_nul, 5);
            assert(t.len() == 4);
            assert(t.last() == '\0');
            assert(t.drop_last() =~= seq![category_letter(idx), '\0', '\0']);
            assert(t.drop_last().drop_last() =~= seq![category_letter(idx), '\0']);
            assert(t.drop_last().drop_last().drop_last() =~= seq![category_letter(idx)]);
            assert(category_letter(idx) != '\0');
            assert(seq![category_letter(idx)].last() != '\0');
            assert(trim_nul(t.drop_last().drop_last().drop_last()) == seq![category_letter(idx)]);
            assert(trim_nul(t.drop_last().drop_last()) == trim_nul(t.drop_last().drop_last().drop_last()));
            assert(trim_nul(t.drop_last()) == trim_nul(t.drop_last().drop_last()));
        }
        let b = text_bytes(seq![category_letter(idx)]);
        assert(b.len() == 1);
        assert(3 <= idx <= 9);
    }
}

/// Face `a` is followed by face `b` in the same suit exactly when `a` is a
/// suited face whose number is below 9 and `b` is the next face up: within
/// a suit, every tile but the 9 has a successor, and only one.
pub proof fn law_prev_is_next_number(a: u8, b: u8)
    ensures
        face_is_prev(a, b) <==> (a < 30 && a % 10 < 9 && b == a + 1),
{
}

/// A suited face is a terminal exactly when its number is 1 or 9 (numbers 2
/// to 8 are not); every honour face is one.
pub proof fn law_yaochuu_faces(face: u8)
    ensures
        face < 30 ==> (face_is_yaochuu(face) <==> (face % 10 == 1 || face % 10 == 9)),
        face >= 30 ==> face_is_yaochuu(face),
{
}

/// A digit byte `d` followed by a suit letter parses to the tile of that suit
/// whose number is `d - '0'`: `M` gives the faces from 0, `S` those from 10,
/// `P` those from 20; a third byte `r` marks the tile red.
pub proof fn law_parse_digit_and_suit(d: u8)
    requires
        48 <= d <= 57,
    ensures
        parse_tile(seq![d, 77u8]) == Some(((d - 48) as u8, false)),
        parse_tile(seq![d, 83u8]) == Some(((d - 38) as u8, false)),
        parse_tile(seq![d, 80u8]) == Some(((d - 28) as u8, false)),
        parse_tile(seq![d, 77u8, 114u8]) == Some(((d - 48) as u8, true)),
        parse_tile(seq![d, 83u8, 114u8]) == Some(((d - 38) as u8, true)),
        parse_tile(seq![d, 80u8, 114u8]) == Some(((d - 28) as u8, true)),
{
}

/// The text of a suited face is the digit of its number (`'0'` plus the
/// number), the suit's letter (`M` below 10, `S` below 20, `P` below 30),
/// `r` or NUL for the red mark, and a NUL.
pub proof fn law_suited_tile_text(face: u8, red: bool)
    requires
        face < 30,
    ensures
        tile_text(face, red).len() == 4,
        tile_text(face, red)[0] as u32 == 48 + face % 10,
        face < 10 ==> tile_text(face, red)[1] == 'M',
        10 <= face < 20 ==> tile_text(face, red)[1] == 'S',
        20 <= face ==> tile_text(face, red)[1] == 'P',
        tile_text(face, red)[2] == if red { 'r' } else { '\0' },
        tile_text(face, red)[3] == '\0',
{
    lemma_digit_char_byte(face % 10);
}

/// Tiles are ordered by face alone: the lower face comes first, and equal
/// faces compare equal whatever the red marks.
pub proof fn law_tile_order_by_face(a: MJTile, b: MJTile)
    ensures
        a.face() < b.face() ==> a.partial_cmp_spec(&b) == Some(Ordering::Less),
        a.face() > b.face() ==> a.partial_cmp_spec(&b) == Some(Ordering::Greater),
        a.face() == b.face() ==> a.partial_cmp_spec(&b) == Some(Ordering::Equal),
{
}

/// The text of an honour face is its letter and three NULs: `T`, `N`, `S`,
/// `P` for the winds east, south, west, north, and `Z`, `B`, `F` for the
/// red, white and green dragons; the red mark is not written.
pub proof fn law_honour_tile_text(face: u8, red: bool)
    requires
        30 <= face <= 99,
    ensures
        tile_text(face, red).len() == 4,
        tile_text(face, red).drop_first() == seq!['\0', '\0', '\0'],
        30 <= face < 40 ==> tile_text(face, red)[0] == 'T',
        40 <= face < 50 ==> tile_text(face, red)[0] == 'N',
        50 <= face < 60 ==> tile_text(face, red)[0] == 'S',
        60 <= face < 70 ==> tile_text(face, red)[0] == 'P',
        70 <= face < 80 ==> tile_text(face, red)[0] == 'Z',
        80 <= face < 90 ==> tile_text(face, red)[0] == 'B',
        90 <= face ==> tile_text(face, red)[0] == 'F',
{
    assert(tile_text(face, red).drop_first() =~= seq!['\0', '\0', '\0']);
}

/// The face that `new` gives each category: the suits characters, bamboo
/// and circles start at 0, 10 and 20 and add the number; the winds east,
/// south, west, north are 30, 40, 50, 60; the dragons red, white, green are
/// 70, 80, 90, whatever number is passed.
pub proof fn law_category_faces(n: u8)
    ensures
        spec_face_of(MJTileCategory::Man, n) == n,
        spec_face_of(MJTileCategory::So, n) == 10 + n,
        spec_face_of(MJTileCategory::Pin, n) == 20 + n,
        spec_face_of(MJTileCategory::Ton, n) == 30,
        spec_face_of(MJTileCategory::Nan, n) == 40,
        spec_face_of(MJTileCategory::Shya, n) == 50,
        spec_face_of(MJTileCategory::Pei, n) == 60,
        spec_face_of(MJTileCategory::Tyu, n) == 70,
        spec_face_of(MJTileCategory::Haku, n) == 80,
        spec_face_of(MJTileCategory::Hatu, n) == 90,
{
}

} // verus!
