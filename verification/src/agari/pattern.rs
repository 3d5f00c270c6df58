use vstd::prelude::*;
use crate::mjcore::mjcomb::MJCombCategory;
use crate::mjcore::mjcomb::comb_letter;
use crate::agari::digits::pow4;
use crate::agari::digits::digit4;
use crate::agari::digits::digit1024;
use crate::agari::digits::len4;
use crate::agari::digits::len1024;
use crate::agari::digits::digits4;
use crate::agari::digits::digits1024;
use crate::agari::digits::lemma_digit4_shr;
use crate::agari::digits::lemma_digit4_step;
use crate::agari::digits::lemma_digit1024_shr;
use crate::agari::digits::lemma_digits4_index;
use crate::agari::digits::lemma_digits1024_index;
use crate::agari::digits::lemma_len4_bound;
use crate::agari::digits::lemma_len1024_bound;
use crate::agari::digits::pow1024;

verus! {

/// The two-bit code of a combination category inside a pattern: 1 for a run,
/// 2 for three or four of a kind, 3 for a pair.
pub open spec fn comb_code(c: MJCombCategory) -> nat {
    match c {
        MJCombCategory::Shuntu => 1,
        MJCombCategory::Koutu => 2,
        MJCombCategory::Kantu => 2,
        MJCombCategory::Tuitu => 3,
    }
}

/// The category that a two-bit code stands for; four of a kind reads back as
/// three of a kind, and 0 stands for no combination.
pub open spec fn decode_comb(d: nat) -> Option<MJCombCategory> {
    if d == 1 {
        Some(MJCombCategory::Shuntu)
    } else if d == 2 {
        Some(MJCombCategory::Koutu)
    } else if d == 3 {
        Some(MJCombCategory::Tuitu)
    } else {
        None
    }
}

/// Whether one of the first five two-bit slots of a pattern code holds a pair.
pub open spec fn code_has_tuitu(c: nat) -> bool {
    ||| digit4(c, 0) == 3
    ||| digit4(c, 1) == 3
    ||| digit4(c, 2) == 3
    ||| digit4(c, 3) == 3
    ||| digit4(c, 4) == 3
}

/// The number whose base-4 digits, most significant first, are `s[0..k]`.
pub open spec fn reversed_prefix(s: Seq<nat>, k: nat) -> nat
    decreases k,
{
    if k == 0 {
        0
    } else {
        reversed_prefix(s, (k - 1) as nat) * 4 + s[k - 1]
    }
}

/// The code of the reversed pattern: the code's base-4 digits in the opposite
/// order (slots that were zero at the bottom vanish at the top).
pub open spec fn reversed_code(c: nat) -> nat {
    reversed_prefix(digits4(c), len4(c))
}

/// The code after a new combination is shifted in at slot 0; the slot at
/// the top falls off.
pub open spec fn pushed_code(c: nat, cate: MJCombCategory) -> nat {
    (c * 4 + comb_code(cate)) % 65536
}

/// A winning-hand pattern: a sequence of up to eight combination categories
/// packed two bits each into a 16-bit code, slot 0 in the lowest bits.
/// The slot most recently pushed is slot 0.
#[derive(Debug, Clone, Copy, PartialEq, Eq, Structural)]
pub struct AgariPattern(u16);

impl View for AgariPattern {
    type V = Seq<nat>;

    /// The pattern's slot codes, slot 0 first, up to its last nonzero slot.
    open spec fn view(&self) -> Seq<nat> {
        digits4(self.spec_code() as nat)
    }
}

proof fn lemma_u16_bits(x: u16, e: u16, p: u16, k: u16)
    by (bit_vector)
    requires
        e < 4,
        p < 8,
        k < 8,
    ensures
        ((x << 2u16) | e) == (x & 0x3fffu16) * 4 + e,
        x & 0x3fffu16 == x % 16384,
        (((((x & !(3u16 << ((2 * p) as u16))) | (e << ((2 * p) as u16))) >> ((2 * k) as u16)) & 3u16)
            == if k == p { e } else { (x >> ((2 * k) as u16)) & 3u16 }),
{
}

proof fn lemma_push_arith(x: nat, e: nat)
    requires
        e < 4,
    ensures
        (x % 16384) * 4 + e == (x * 4 + e) % 65536,
{
    let q = x / 16384;
    let r = x % 16384;
    assert(x == 16384 * q + r) by (nonlinear_arith)
        requires q == x / 16384, r == x % 16384;
    assert(x * 4 + e == q * 65536 + (r * 4 + e)) by (nonlinear_arith)
        requires x == 16384 * q + r;
    vstd::arithmetic::div_mod::lemma_fundamental_div_mod_converse((x * 4 + e) as int, 65536, q as int, (r * 4 + e) as int);
}

proof fn lemma_pow4_8()
    ensures
        pow4(5) == 1024,
        pow4(8) == 65536,
{
    reveal_with_fuel(pow4, 9);
}

/// A pattern code has at most eight slots.
proof fn lemma_code_len(c: u16)
    ensures
        len4(c as nat) <= 8,
{
    lemma_pow4_8();
    lemma_len4_bound(c as nat, 8);
}

proof fn lemma_reversed_prefix_bound(s: Seq<nat>, k: nat)
    requires
        k <= s.len(),
        forall|i: int| 0 <= i < s.len() ==> s[i] < 4,
    ensures
        reversed_prefix(s, k) < pow4(k),
    decreases k,
{
    if k > 0 {
        lemma_reversed_prefix_bound(s, (k - 1) as nat);
    }
}

proof fn lemma_digits4_small(c: nat)
    ensures
        forall|i: int| 0 <= i < digits4(c).len() ==> digits4(c)[i] < 4,
    decreases c,
{
    if c > 0 {
        lemma_digits4_small(c / 4);
        assert forall|i: int| 0 <= i < digits4(c).len() implies digits4(c)[i] < 4 by {
            if i > 0 {
                assert(digits4(c)[i] == digits4(c / 4)[i - 1]);
            }
        }
    }
}

impl AgariPattern {
    /// A winning hand has at most five combinations.
    pub const MAX_COMB_COUNT: usize = 5;

    /// The pattern's 16-bit code.
    pub closed spec fn spec_code(self) -> u16 {
        self.0
    }

    fn encode_comb(cate: MJCombCategory) -> (r: u8)
        ensures
            r as nat == comb_code(cate),
    {
        match cate {
            MJCombCategory::Shuntu => 1,
            MJCombCategory::Koutu | MJCombCategory::Kantu => 2,
            MJCombCategory::Tuitu => 3,
        }
    }

    /// The empty pattern.
    pub fn new() -> (r: AgariPattern)
        ensures
            r.spec_code() == 0,
    {
        AgariPattern(0)
    }

    /// Whether the pattern has no combination.
    pub fn empty(self) -> (r: bool)
        ensures
            r == (self.spec_code() == 0),
            r == (self@.len() == 0),
    {
        proof {
            lemma_digits4_index(self.0 as nat, 0);
        }
        self.0 == 0
    }

    /// The number of slots up to the last nonzero one.
    pub fn len(self) -> (r: usize)
        ensures
            r == len4(self.spec_code() as nat),
            r == self@.len(),
            r <= 8,
    {
        proof {
            lemma_code_len(self.0);
            lemma_digits4_index(self.0 as nat, 0);
        }
        let mut sz: usize = 0;
        let mut code = self.0;
        while code > 0
            invariant
                sz + len4(code as nat) == len4(self.0 as nat),
                len4(self.0 as nat) <= 8,
            decreases code,
        {
            proof {
                lemma_u16_bits(code, 0, 0, 0);
                crate::agari::digits::lemma_digit4_step(code as nat, 0);
                assert(code >> 2u16 == code / 4) by (bit_vector);
            }
            sz += 1;
            code >>= 2;
        }
        sz
    }

    /// An iterator over the first five slots.
    pub fn iter(self) -> (r: AgariPatternIter)
        ensures
            r.spec_pos() == 0,
            r.spec_pattern() == self,
    {
        AgariPatternIter(0, self)
    }

    /// The pattern with its slots in the opposite order.
    pub fn reversed(self) -> (r: AgariPattern)
        ensures
            r.spec_code() as nat == reversed_code(self.spec_code() as nat),
    {
        let len = self.len() as u16;
        let mut revd = Self::new();
        let ghost s = digits4(self.0 as nat);
        proof {
            lemma_digits4_small(self.0 as nat);
            lemma_pow4_8();
        }
        let mut i: u16 = 0;
        while i < len
            invariant
                len as nat == len4(self.0 as nat),
                len <= 8,
                i <= len,
                s == digits4(self.0 as nat),
                s.len() == len,
                forall|t: int| 0 <= t < s.len() ==> s[t] < 4,
                revd.0 as nat == reversed_prefix(s, i as nat),
            decreases len - i,
        {
            proof {
                lemma_digits4_index(self.0 as nat, i as nat);
                lemma_digit4_shr(self.0, i);
                lemma_reversed_prefix_bound(s, i as nat);
                crate::agari::digits::lemma_len4_bound(0, 0);
                assert(pow4(i as nat) <= pow4(7)) by {
                    reveal_with_fuel(pow4, 9);
                    assert(i < 8);
                }
                assert(pow4(7) == 16384) by {
                    reveal_with_fuel(pow4, 8);
                }
            }
            let d = (self.0 >> (2 * i)) & 0b11;
            proof {
                lemma_u16_bits(revd.0, d, 0, 0);
                assert(revd.0 < 16384);
                assert(d as nat == s[i as int]);
            }
            revd.0 = (revd.0 << 2) | d;
            i = i + 1;
        }
        revd
    }

    /// Whether one of the first five slots holds a pair.
    pub fn has_tuitu(self) -> (r: bool)
        ensures
            r == code_has_tuitu(self.spec_code() as nat),
    {
        proof {
            lemma_digit4_shr(self.0, 0);
            lemma_digit4_shr(self.0, 1);
            lemma_digit4_shr(self.0, 2);
            lemma_digit4_shr(self.0, 3);
            lemma_digit4_shr(self.0, 4);
        }
        (self.0 & 0b11) == 0b11 || ((self.0 >> 2) & 0b11) == 0b11 || ((self.0 >> 4) & 0b11) == 0b11
            || ((self.0 >> 6) & 0b11) == 0b11 || ((self.0 >> 8) & 0b11) == 0b11
    }

    /// Shifts a combination in at slot 0 (the slot at the top falls off).
    pub fn push(&mut self, cate: MJCombCategory)
        ensures
            final(self).spec_code() as nat == pushed_code(old(self).spec_code() as nat, cate),
    {
        let e = Self::encode_comb(cate) as u16;
        proof {
            lemma_u16_bits(self.0, e, 0, 0);
            lemma_push_arith(self.0 as nat, e as nat);
        }
        self.0 = (self.0 << 2) | e;
    }

    /// Sets slot `pos` to the code of `cate`, leaving the others.
    pub fn assign(&mut self, pos: u8, cate: MJCombCategory)
        requires
            pos < 8,
        ensures
            forall|k: nat|
                k < 8 ==> #[trigger] digit4(final(self).spec_code() as nat, k) == if k == pos {
                    comb_code(cate)
                } else {
                    digit4(old(self).spec_code() as nat, k)
                },
    {
        let e = Self::encode_comb(cate) as u16;
        let old_code = self.0;
        let p = pos as u16;
        self.0 = (self.0 & !(0b11u16 << (p * 2))) | (e << (p * 2));
        proof {
            assert forall|k: nat| k < 8 implies #[trigger] digit4(self.0 as nat, k) == if k == pos {
                comb_code(cate)
            } else {
                digit4(old_code as nat, k)
            } by {
                lemma_u16_bits(old_code, e, p, k as u16);
                lemma_digit4_shr(self.0, k as u16);
                lemma_digit4_shr(old_code, k as u16);
                assert(p * 2 == 2 * p);
            }
        }
    }

    /// The category in slot `index` (`None` for an empty slot).
    pub fn get(self, index: u8) -> (r: Option<MJCombCategory>)
        requires
            index < 8,
        ensures
            r == decode_comb(digit4(self.spec_code() as nat, index as nat)),
    {
        proof {
            lemma_digit4_shr(self.0, index as u16);
        }
        let d = (self.0 >> (index as u16 * 2)) & 0b11;
        if d == 0b01 {
            Some(MJCombCategory::Shuntu)
        } else if d == 0b10 {
            Some(MJCombCategory::Koutu)
        } else if d == 0b11 {
            Some(MJCombCategory::Tuitu)
        } else {
            None
        }
    }
}

/// The pattern of one combination.
impl From<MJCombCategory> for AgariPattern {
    fn from(value: MJCombCategory) -> (r: AgariPattern) {
        AgariPattern(Self::encode_comb(value) as u16)
    }
}

impl vstd::std_specs::convert::FromSpecImpl<MJCombCategory> for AgariPattern {
    open spec fn obeys_from_spec() -> bool {
        true
    }

    closed spec fn from_spec(v: MJCombCategory) -> AgariPattern {
        AgariPattern(comb_code(v) as u16)
    }
}

/// The pattern of one combination holds that combination's code alone.
pub proof fn lemma_pattern_from_category(v: MJCombCategory)
    ensures
        <AgariPattern as vstd::std_specs::convert::FromSpec<MJCombCategory>>::from_spec(v).spec_code() as nat
            == comb_code(v),
{
}

impl Default for AgariPattern {
    fn default() -> (r: AgariPattern)
        ensures
            r.spec_code() == 0,
    {
        AgariPattern(0)
    }
}

// ----- text of patterns -----

/// The letters (each followed by a space) of the combinations that iterating
/// a pattern code from slot `k` yields: up to slot 5 or the first empty slot.
pub open spec fn letters_from(code: nat, k: nat) -> Seq<char>
    decreases 5 - k,
{
    if k >= 5 {
        seq![]
    } else {
        match decode_comb(digit4(code, k)) {
            Some(c) => seq![comb_letter(c), ' '] + letters_from(code, k + 1),
            None => seq![],
        }
    }
}

/// The line that shows a pattern: two spaces, its combinations' letters,
/// each followed by a space, and a line break.
pub open spec fn pattern_line(code: nat) -> Seq<char> {
    seq![' ', ' '] + letters_from(code, 0) + seq!['\n']
}

/// The lines of the patterns with codes `ps`, in order.
pub open spec fn patterns_text(ps: Seq<nat>) -> Seq<char>
    decreases ps.len(),
{
    if ps.len() == 0 {
        seq![]
    } else {
        patterns_text(ps.drop_last()) + pattern_line(ps.last())
    }
}

fn letter_str(c: MJCombCategory) -> (r: &'static str)
    ensures
        r@ == seq![comb_letter(c), ' '],
{
    match c {
        MJCombCategory::Shuntu => {
            proof {
                reveal_strlit("S ");
            }
            "S "
        },
        MJCombCategory::Koutu => {
            proof {
                reveal_strlit("K ");
            }
            "K "
        },
        MJCombCategory::Kantu => {
            proof {
                reveal_strlit("G ");
            }
            "G "
        },
        MJCombCategory::Tuitu => {
            proof {
                reveal_strlit("T ");
            }
            "T "
        },
    }
}

/// The line that shows a pattern (see `pattern_line`).
pub fn pattern_line_text(pattern: AgariPattern) -> (r: String)
    ensures
        r@ == pattern_line(pattern.spec_code() as nat),
{
    let ghost code = pattern.spec_code() as nat;
    let mut s = String::new();
    proof {
        reveal_strlit("  ");
        reveal_strlit("\n");
    }
    s.append("  ");
    let mut it = pattern.iter();
    loop
        invariant_except_break
            code == pattern.spec_code() as nat,
            it.spec_pattern() == pattern,
            it.spec_pos() <= 5,
            seq![' ', ' '] + letters_from(code, 0) == s@ + letters_from(code, it.spec_pos() as nat),
        ensures
            s@ == seq![' ', ' '] + letters_from(code, 0),
        decreases 5 - it.spec_pos(),
    {
        let ghost pos = it.spec_pos() as nat;
        match it.next() {
            Some(c) => {
                proof {
                    assert(letters_from(code, pos) == seq![comb_letter(c), ' '] + letters_from(code, pos + 1));
                }
                s.append(letter_str(c));
                proof {
                    assert(s@ + letters_from(code, (pos + 1) as nat) =~= seq![' ', ' '] + letters_from(code, 0));
                }
            },
            None => {
                proof {
                    assert(letters_from(code, pos) =~= Seq::<char>::empty());
                    assert(s@ =~= seq![' ', ' '] + letters_from(code, 0));
                }
                break;
            },
        }
    }
    s.append("\n");
    s
}

/// The lines that show the patterns, one after another (see `patterns_text`).
pub fn agari_patterns_text(patterns: &[AgariPattern]) -> (r: String)
    ensures
        r@ == patterns_text(patterns@.map_values(|p: AgariPattern| p.spec_code() as nat)),
{
    let ghost codes = patterns@.map_values(|p: AgariPattern| p.spec_code() as nat);
    let mut s = String::new();
    for k in 0..patterns.len()
        invariant
            codes == patterns@.map_values(|p: AgariPattern| p.spec_code() as nat),
            s@ == patterns_text(codes.take(k as int)),
    {
        let line = pattern_line_text(patterns[k]);
        s.append(line.as_str());
        proof {
            assert(codes.take(k + 1).drop_last() =~= codes.take(k as int));
            assert(codes.take(k + 1).last() == codes[k as int]);
        }
    }
    proof {
        assert(codes.take(patterns.len() as int) =~= codes);
    }
    s
}

/// An iterator over the first five slots of a pattern; it ends at the first
/// empty slot.
pub struct AgariPatternIter(u8, AgariPattern);

/// One step of iterating a pattern code at position `pos`: the next
/// position and the category yielded.
pub open spec fn pattern_step(pos: nat, code: nat) -> (nat, Option<MJCombCategory>) {
    if pos < 5 {
        (pos + 1, decode_comb(digit4(code, pos)))
    } else {
        (pos, None)
    }
}

/// `k` steps from position `pos`: the position reached and what the last
/// step yielded (`None` for no step).
pub open spec fn pattern_steps(pos: nat, code: nat, k: nat) -> (nat, Option<MJCombCategory>)
    decreases k,
{
    if k == 0 {
        (pos, None)
    } else {
        pattern_step(pattern_steps(pos, code, (k - 1) as nat).0, code)
    }
}

/// Skipping `n` slots at position `pos`, then one step: the next position
/// and the category yielded.
pub open spec fn pattern_skip(pos: nat, code: nat, n: nat) -> (nat, Option<MJCombCategory>) {
    if pos + n < 5 {
        (pos + n + 1, decode_comb(digit4(code, pos + n)))
    } else {
        (pos, None)
    }
}

impl AgariPatternIter {
    /// The number of slots already passed.
    pub closed spec fn spec_pos(self) -> u8 {
        self.0
    }

    /// The pattern iterated over.
    pub closed spec fn spec_pattern(self) -> AgariPattern {
        self.1
    }

    /// The category in the next slot, while fewer than five were passed.
    pub fn next(&mut self) -> (r: Option<MJCombCategory>)
        ensures
            final(self).spec_pattern() == old(self).spec_pattern(),
            old(self).spec_pos() < 5 ==> final(self).spec_pos() == old(self).spec_pos() + 1 && r
                == decode_comb(digit4(old(self).spec_pattern().spec_code() as nat, old(self).spec_pos() as nat)),
            old(self).spec_pos() >= 5 ==> final(self).spec_pos() == old(self).spec_pos() && r is None,
            (final(self).spec_pos() as nat, r) == pattern_step(
                old(self).spec_pos() as nat,
                old(self).spec_pattern().spec_code() as nat,
            ),
    {
        if (self.0 as usize) < AgariPattern::MAX_COMB_COUNT {
            self.0 += 1;
            self.1.get(self.0 - 1)
        } else {
            None
        }
    }

    /// Skips `n` slots, then acts as `next`.
    pub fn nth(&mut self, n: usize) -> (r: Option<MJCombCategory>)
        ensures
            final(self).spec_pattern() == old(self).spec_pattern(),
            old(self).spec_pos() + n < 5 ==> final(self).spec_pos() == old(self).spec_pos() + n + 1
                && r == decode_comb(
                digit4(old(self).spec_pattern().spec_code() as nat, (old(self).spec_pos() + n) as nat),
            ),
            old(self).spec_pos() + n >= 5 ==> final(self).spec_pos() == old(self).spec_pos() && r is None,
            (final(self).spec_pos() as nat, r) == pattern_skip(
                old(self).spec_pos() as nat,
                old(self).spec_pattern().spec_code() as nat,
                n as nat,
            ),
    {
        if (self.0 as usize) < AgariPattern::MAX_COMB_COUNT && n < AgariPattern::MAX_COMB_COUNT - (self.0 as usize) {
            self.0 += (n as u8) + 1;
            self.1.get(self.0 - 1)
        } else {
            None
        }
    }
}

/// The leading entries of `s` up to its first zero.
pub open spec fn take_while_nonzero(s: Seq<nat>) -> Seq<nat>
    decreases s.len(),
{
    if s.len() == 0 || s[0] == 0 {
        seq![]
    } else {
        seq![s[0]] + take_while_nonzero(s.drop_first())
    }
}

/// The patterns that iterating a sequence code from the front yields: its
/// 10-bit slots from slot 0 up to the first empty one.
pub open spec fn front_items(c: nat) -> Seq<nat> {
    take_while_nonzero(digits1024(c))
}

/// The patterns that iterating a sequence code from the back yields: its
/// 10-bit slots from the top slot down to the first empty one.
pub open spec fn back_items(c: nat) -> Seq<nat> {
    take_while_nonzero(digits1024(c).reverse())
}

/// The sequence code after a pattern code below 1024 is shifted in at slot 0;
/// what is shifted past bit 63 falls off.
pub open spec fn seq_pushed_code(c: nat, p: nat) -> nat {
    (c % 0x40_0000_0000_0000) * 1024 + p
}

/// A sequence of up to six patterns (a seventh, partial slot of four bits sits
/// at the top), packed ten bits each into a 64-bit code, slot 0 in the lowest
/// bits. The pattern most recently pushed is in slot 0.
#[derive(Debug, Clone, Copy, PartialEq, Eq, Structural)]
pub struct AgariPatternSeq {
    code_: u64,
}

impl View for AgariPatternSeq {
    type V = Seq<nat>;

    /// The sequence's slot codes, slot 0 first, up to its last nonzero slot.
    open spec fn view(&self) -> Seq<nat> {
        digits1024(self.spec_code() as nat)
    }
}

proof fn lemma_u64_bits(x: u64, p: u64, i: u64, k: u64)
    by (bit_vector)
    requires
        p < 1024,
        i < 6,
        k < 6,
    ensures
        ((x << 10u64) | p) == (x & 0x3f_ffff_ffff_ffffu64) * 1024 + p,
        x & 0x3f_ffff_ffff_ffffu64 == x % 0x40_0000_0000_0000,
        (((((x & !(0x3ffu64 << ((10 * i) as u64))) | (p << ((10 * i) as u64))) >> ((10 * k) as u64))
            & 1023u64) == if k == i { p } else { (x >> ((10 * k) as u64)) & 1023u64 }),
{
}

/// A sequence code has at most seven slots.
proof fn lemma_seq_code_len(c: u64)
    ensures
        len1024(c as nat) <= 7,
{
    assert(pow1024(7) == 1180591620717411303424nat) by {
        reveal_with_fuel(pow1024, 8);
    }
    lemma_len1024_bound(c as nat, 7);
}

impl AgariPatternSeq {
    /// At most six patterns are kept.
    pub const MAX_PATTERN_COUNT: usize = 6;

    /// The sequence's 64-bit code.
    pub closed spec fn spec_code(self) -> u64 {
        self.code_
    }

    fn code(self) -> (r: u64)
        ensures
            r == self.spec_code(),
    {
        self.code_
    }

    /// The empty sequence.
    pub fn new() -> (r: AgariPatternSeq)
        ensures
            r.spec_code() == 0,
    {
        AgariPatternSeq { code_: 0 }
    }

    /// Whether the sequence holds no pattern.
    pub fn empty(self) -> (r: bool)
        ensures
            r == (self.spec_code() == 0),
            r == (self@.len() == 0),
    {
        proof {
            lemma_digits1024_index(self.code_ as nat, 0);
        }
        self.code() == 0
    }

    /// The number of slots up to the last nonzero one.
    pub fn len(self) -> (r: usize)
        ensures
            r == len1024(self.spec_code() as nat),
            r == self@.len(),
            r <= 7,
    {
        proof {
            lemma_seq_code_len(self.code_);
            lemma_digits1024_index(self.code_ as nat, 0);
        }
        let mut sz: usize = 0;
        let mut code = self.code();
        while code > 0
            invariant
                sz + len1024(code as nat) == len1024(self.code_ as nat),
                len1024(self.code_ as nat) <= 7,
            decreases code,
        {
            proof {
                assert(code >> 10u64 == code / 1024) by (bit_vector);
            }
            sz += 1;
            code >>= 10;
        }
        sz
    }

    /// The pattern in slot `index`, or `None` for an empty slot.
    pub fn get(self, index: u8) -> (r: Option<AgariPattern>)
        requires
            index <= 6,
        ensures
            r is None <==> digit1024(self.spec_code() as nat, index as nat) == 0,
            r matches Some(p) ==> p.spec_code() as nat == digit1024(self.spec_code() as nat, index as nat),
    {
        proof {
            lemma_digit1024_shr(self.code_, index as u64);
        }
        let t = (self.code() >> (10 * (index as u64))) & 0x3ff;
        if t == 0 {
            None
        } else {
            Some(AgariPattern(t as u16))
        }
    }

    /// An iterator over the slots, from both ends.
    pub fn iter(self) -> (r: AgariPatternSeqIter)
        ensures
            r.spec_front() == 0,
            r.spec_back() == len1024(self.spec_code() as nat),
            r.spec_seq() == self,
            r.spec_remaining() == self@,
    {
        let n = self.len() as u8;
        let r = AgariPatternSeqIter(0, n, self);
        proof {
            let c = self.code_ as nat;
            assert forall|k: int| 0 <= k < r.spec_remaining().len() implies r.spec_remaining()[k] == self@[k] by {
                lemma_digits1024_index(c, k as nat);
            }
            lemma_digits1024_index(c, 0);
            assert(r.spec_remaining() =~= self@);
        }
        r
    }

    /// Replaces the pattern in slot `index` when that slot lies below the
    /// length; otherwise leaves the sequence as it is.
    pub fn set_if_existed(&mut self, index: u8, pattern: AgariPattern)
        ensures
            index >= len1024(old(self).spec_code() as nat) ==> *final(self) == *old(self),
            index < len1024(old(self).spec_code() as nat) ==> final(self).spec_code() == ((old(
                self,
            ).spec_code() & !(0x3ffu64 << ((10 * index) as u64))) | ((pattern.spec_code() as u64) << ((10
                * index) as u64))),
            index < len1024(old(self).spec_code() as nat) && index < 6 && pattern.spec_code() < 1024
                ==> forall|k: nat|
                k < 6 ==> #[trigger] digit1024(final(self).spec_code() as nat, k) == if k == index {
                    pattern.spec_code() as nat
                } else {
                    digit1024(old(self).spec_code() as nat, k)
                },
    {
        if (index as usize) < self.len() {
            let old_code = self.code();
            let s = 10 * index;
            let p = pattern.0 as u64;
            self.code_ = (self.code() & !(0x3ffu64 << s)) | (p << s);
            proof {
                if index < 6 && p < 1024 {
                    assert forall|k: nat| k < 6 implies #[trigger] digit1024(self.code_ as nat, k) == if k == index {
                        p as nat
                    } else {
                        digit1024(old_code as nat, k)
                    } by {
                        lemma_u64_bits(old_code, p, index as u64, k as u64);
                        lemma_digit1024_shr(self.code_, k as u64);
                        lemma_digit1024_shr(old_code, k as u64);
                        assert(s as u64 == (10 * index) as u64);
                    }
                }
            }
        }
    }

    /// Shifts a pattern in at slot 0.
    pub fn push(&mut self, pattern: AgariPattern)
        ensures
            final(self).spec_code() == ((old(self).spec_code() << 10u64) | (pattern.spec_code() as u64)),
            pattern.spec_code() < 1024 ==> final(self).spec_code() as nat == seq_pushed_code(
                old(self).spec_code() as nat,
                pattern.spec_code() as nat,
            ),
    {
        let p = pattern.0 as u64;
        proof {
            if p < 1024 {
                lemma_u64_bits(self.code_, p, 0, 0);
            }
        }
        self.code_ = (self.code() << 10) | p;
    }
}

/// The sequence of one pattern: its code is the pattern's code.
impl From<AgariPattern> for AgariPatternSeq {
    fn from(value: AgariPattern) -> (r: AgariPatternSeq) {
        let mut seq = AgariPatternSeq::new();
        seq.push(value);
        proof {
            let x = value.0 as u64;
            assert((0u64 << 10u64) | x == x) by (bit_vector);
        }
        seq
    }
}

impl vstd::std_specs::convert::FromSpecImpl<AgariPattern> for AgariPatternSeq {
    open spec fn obeys_from_spec() -> bool {
        true
    }

    closed spec fn from_spec(v: AgariPattern) -> AgariPatternSeq {
        AgariPatternSeq { code_: v.spec_code() as u64 }
    }
}

/// The sequence of one pattern holds that pattern's code.
pub proof fn lemma_seq_from_pattern(v: AgariPattern)
    ensures
        <AgariPatternSeq as vstd::std_specs::convert::FromSpec<AgariPattern>>::from_spec(v).spec_code()
            == v.spec_code() as u64,
{
}

/// An iterator over the slots of a pattern sequence, from the front (slot 0)
/// and from the back; each end stops at an empty slot.
pub struct AgariPatternSeqIter(u8, u8, AgariPatternSeq);

impl AgariPatternSeqIter {
    #[verifier::type_invariant]
    spec fn wf(self) -> bool {
        self.1 <= 7
    }

    /// The front position.
    pub closed spec fn spec_front(self) -> u8 {
        self.0
    }

    /// The back position (one past the last slot still to visit).
    pub closed spec fn spec_back(self) -> u8 {
        self.1
    }

    /// The sequence iterated over.
    pub closed spec fn spec_seq(self) -> AgariPatternSeq {
        self.2
    }

    /// The slots still to visit, front first.
    pub closed spec fn spec_remaining(self) -> Seq<nat> {
        Seq::new(
            if self.0 < self.1 { (self.1 - self.0) as nat } else { 0nat },
            |k: int| digit1024(self.2.spec_code() as nat, (self.0 + k) as nat),
        )
    }

    /// The slot at the front, while the front is below the back.
    pub fn next(&mut self) -> (r: Option<AgariPattern>)
        ensures
            final(self).spec_seq() == old(self).spec_seq(),
            final(self).spec_back() == old(self).spec_back(),
            old(self).spec_front() < old(self).spec_back() ==> {
                &&& final(self).spec_front() == old(self).spec_front() + 1
                &&& r is None <==> digit1024(old(self).spec_seq().spec_code() as nat, old(self).spec_front() as nat) == 0
                &&& r matches Some(p) ==> p.spec_code() as nat == digit1024(old(self).spec_seq().spec_code() as nat, old(self).spec_front() as nat)
            },
            old(self).spec_front() >= old(self).spec_back() ==> final(self).spec_front() == old(self).spec_front() && r is None,
            old(self).spec_remaining().len() > 0 ==> final(self).spec_remaining() == old(self).spec_remaining().drop_first()
                && (r is None <==> old(self).spec_remaining()[0] == 0) && (r matches Some(p) ==> p.spec_code() as nat
                == old(self).spec_remaining()[0]),
            old(self).spec_remaining().len() == 0 ==> final(self).spec_remaining() == old(self).spec_remaining() && r is None,
            final(self).spec_remaining() == take_end(old(self).spec_remaining(), true).0,
            r matches Some(p) ==> take_end(old(self).spec_remaining(), true).1 == Some(p.spec_code() as nat),
    {
        proof {
            use_type_invariant(&*self);
        }
        let ghost before = self.spec_remaining();
        if self.0 < self.1 {
            self.0 += 1;
            proof {
                assert(self.spec_remaining() =~= before.drop_first());
            }
            self.2.get(self.0 - 1)
        } else {
            None
        }
    }

    /// Skips `n` slots at the front, then acts as `next`.
    pub fn nth(&mut self, n: usize) -> (r: Option<AgariPattern>)
        ensures
            final(self).spec_seq() == old(self).spec_seq(),
            final(self).spec_back() == old(self).spec_back(),
            old(self).spec_front() + n < old(self).spec_back() ==> {
                &&& final(self).spec_front() == old(self).spec_front() + n + 1
                &&& r is None <==> digit1024(old(self).spec_seq().spec_code() as nat, (old(self).spec_front() + n) as nat) == 0
                &&& r matches Some(p) ==> p.spec_code() as nat == digit1024(old(self).spec_seq().spec_code() as nat, (old(self).spec_front() + n) as nat)
            },
            old(self).spec_front() + n >= old(self).spec_back() ==> final(self).spec_front() == old(self).spec_front() && r is None,
    {
        proof {
            use_type_invariant(&*self);
        }
        if (self.0 as usize) < (self.1 as usize) && n < (self.1 as usize) - (self.0 as usize) {
            self.0 += (n as u8) + 1;
            self.2.get(self.0 - 1)
        } else {
            None
        }
    }

    /// The slot just below the back, while the front is below the back.
    pub fn next_back(&mut self) -> (r: Option<AgariPattern>)
        ensures
            final(self).spec_seq() == old(self).spec_seq(),
            final(self).spec_front() == old(self).spec_front(),
            old(self).spec_front() < old(self).spec_back() ==> {
                &&& final(self).spec_back() == old(self).spec_back() - 1
                &&& r is None <==> digit1024(old(self).spec_seq().spec_code() as nat, (old(self).spec_back() - 1) as nat) == 0
                &&& r matches Some(p) ==> p.spec_code() as nat == digit1024(old(self).spec_seq().spec_code() as nat, (old(self).spec_back() - 1) as nat)
            },
            old(self).spec_front() >= old(self).spec_back() ==> final(self).spec_back() == old(self).spec_back() && r is None,
            old(self).spec_remaining().len() > 0 ==> final(self).spec_remaining() == old(self).spec_remaining().drop_last()
                && (r is None <==> old(self).spec_remaining().last() == 0) && (r matches Some(p) ==> p.spec_code() as nat
                == old(self).spec_remaining().last()),
            old(self).spec_remaining().len() == 0 ==> final(self).spec_remaining() == old(self).spec_remaining() && r is None,
            final(self).spec_remaining() == take_end(old(self).spec_remaining(), false).0,
            r matches Some(p) ==> take_end(old(self).spec_remaining(), false).1 == Some(p.spec_code() as nat),
    {
        proof {
            use_type_invariant(&*self);
        }
        let ghost before = self.spec_remaining();
        if self.0 < self.1 {
            self.1 -= 1;
            proof {
                assert(self.spec_remaining() =~= before.drop_last());
            }
            self.2.get(self.1)
        } else {
            None
        }
    }
}

// ----- laws of patterns and pattern sequences -----

/// The number whose base-4 digits, least significant first, are `s`.
pub open spec fn digits_value(s: Seq<nat>) -> nat
    decreases s.len(),
{
    if s.len() == 0 {
        0
    } else {
        s[0] + 4 * digits_value(s.drop_first())
    }
}

proof fn lemma_digits_value_of_digits(x: nat)
    ensures
        digits_value(digits4(x)) == x,
    decreases x,
{
    if x > 0 {
        lemma_digits_value_of_digits(x / 4);
        assert(digits4(x).drop_first() =~= digits4(x / 4));
    }
}

proof fn lemma_digits_of_value(s: Seq<nat>)
    requires
        forall|i: int| 0 <= i < s.len() ==> s[i] < 4,
        s.len() > 0 ==> s.last() != 0,
    ensures
        digits4(digits_value(s)) =~= s,
    decreases s.len(),
{
    if s.len() > 0 {
        let t = s.drop_first();
        if t.len() > 0 {
            assert(t.last() == s.last());
        }
        lemma_digits_of_value(t);
        let v = digits_value(s);
        assert(v == s[0] + 4 * digits_value(t));
        if t.len() == 0 {
            assert(v == s[0]);
            assert(v != 0);
        }
        assert(v % 4 == s[0]);
        assert(v / 4 == digits_value(t));
        assert(s =~= seq![s[0]] + t);
    }
}

proof fn lemma_reversed_prefix_value(s: Seq<nat>, k: nat)
    requires
        k <= s.len(),
    ensures
        reversed_prefix(s, k) == digits_value(s.take(k as int).reverse()),
    decreases k,
{
    if k > 0 {
        lemma_reversed_prefix_value(s, (k - 1) as nat);
        let r = s.take(k as int).reverse();
        assert(r.drop_first() =~= s.take(k - 1).reverse());
        assert(r[0] == s[k - 1]);
    }
}

/// Reversing a pattern twice gives it back, where its slot 0 is not empty
/// (empty slots at the bottom would move to the top and vanish); reversing
/// keeps the number of slots.
pub proof fn law_reversed_involution(x: nat)
    requires
        x < 65536,
        digit4(x, 0) != 0,
    ensures
        len4(reversed_code(x)) == len4(x),
        reversed_code(reversed_code(x)) == x,
{
    let s = digits4(x);
    lemma_digits4_index(x, 0);
    lemma_digits4_small(x);
    lemma_reversed_prefix_value(s, len4(x));
    assert(s.take(len4(x) as int) =~= s);
    let r = reversed_code(x);
    assert(r == digits_value(s.reverse()));
    assert(s.reverse().last() == s[0]);
    lemma_digits_of_value(s.reverse());
    assert(digits4(r) =~= s.reverse());
    lemma_digits4_index(r, 0);
    lemma_reversed_prefix_value(digits4(r), len4(r));
    assert(digits4(r).take(len4(r) as int) =~= s.reverse());
    assert(s.reverse().reverse() =~= s);
    lemma_digits_value_of_digits(x);
}

/// The slots of a reversed pattern are the pattern's slots in the opposite
/// order, where its slot 0 is not empty.
pub proof fn lemma_reversed_digits(x: nat)
    requires
        x < 65536,
        x == 0 || digit4(x, 0) != 0,
    ensures
        digits4(reversed_code(x)) == digits4(x).reverse(),
{
    if x == 0 {
        assert(digits4(0) =~= Seq::<nat>::empty());
        assert(digits4(0).reverse() =~= Seq::<nat>::empty());
    } else {
        let s = digits4(x);
        lemma_digits4_index(x, 0);
        lemma_digits4_small(x);
        lemma_reversed_prefix_value(s, len4(x));
        assert(s.take(len4(x) as int) =~= s);
        assert(s.reverse().last() == s[0]);
        lemma_digits_of_value(s.reverse());
    }
}

/// After a combination is pushed, slot 0 reads back its category (four of a
/// kind as three of a kind), and a pattern with fewer than eight slots gains
/// exactly one.
pub proof fn law_push_then_get(x: nat, cate: MJCombCategory)
    requires
        x < 65536,
    ensures
        decode_comb(digit4(pushed_code(x, cate), 0)) == Some(
            if cate == MJCombCategory::Kantu { MJCombCategory::Koutu } else { cate },
        ),
        len4(x) < 8 ==> len4(pushed_code(x, cate)) == len4(x) + 1,
{
    let e = comb_code(cate);
    crate::agari::digits::lemma_digit4_step(pushed_code(x, cate), 0);
    vstd::arithmetic::div_mod::lemma_mod_mod((x * 4 + e) as int, 4, 16384);
    vstd::arithmetic::div_mod::lemma_mod_multiples_vanish(x as int, e as int, 4);
    assert((x * 4 + e) % 4 == e) by {
        assert(x * 4 + e == 4 * x + e);
    }
    if len4(x) < 8 {
        lemma_pow4_8();
        assert(pow4(7) == 16384) by {
            reveal_with_fuel(pow4, 8);
        }
        lemma_len4_bound(x, 7);
        assert(pushed_code(x, cate) == x * 4 + e);
        assert((x * 4 + e) / 4 == x);
    }
}

/// A pair pushed onto a pattern is seen by `has_tuitu`.
pub proof fn law_push_tuitu_has_tuitu(x: nat)
    requires
        x < 65536,
    ensures
        code_has_tuitu(pushed_code(x, MJCombCategory::Tuitu)),
{
    law_push_then_get(x, MJCombCategory::Tuitu);
}

/// After a pattern (below 1024) is pushed onto a sequence, slot 0 reads it
/// back; a sequence of at most five slots gains exactly one; and iterating
/// from the front yields the new pattern, then what it yielded before.
pub proof fn law_seq_push_then_get(c: nat, p: nat)
    requires
        c < 0x1_0000_0000_0000_0000,
        0 < p < 1024,
    ensures
        digit1024(seq_pushed_code(c, p), 0) == p,
        len1024(c) <= 5 ==> len1024(seq_pushed_code(c, p)) == len1024(c) + 1,
        len1024(c) <= 5 ==> front_items(seq_pushed_code(c, p)) == seq![p] + front_items(c),
{
    let v = seq_pushed_code(c, p);
    let m = c % 0x40_0000_0000_0000;
    crate::agari::digits::lemma_digit1024_step(v, 0);
    assert(v == m * 1024 + p);
    assert(v % 1024 == p) by {
        vstd::arithmetic::div_mod::lemma_mod_multiples_vanish(m as int, p as int, 1024);
        assert(m * 1024 + p == 1024 * m + p);
    }
    if len1024(c) <= 5 {
        assert(pow1024(5) == 0x4_0000_0000_0000) by {
            reveal_with_fuel(pow1024, 6);
        }
        lemma_len1024_bound(c, 5);
        assert(m == c);
        assert(v / 1024 == c);
        assert(digits1024(v) =~= seq![p] + digits1024(c));
        assert(digits1024(v).drop_first() =~= digits1024(c));
        assert(digits1024(v)[0] == p);
        assert(take_while_nonzero(digits1024(v)) =~= seq![p] + take_while_nonzero(digits1024(c)));
    }
}

/// Where `k` steps from `pos` lead.
proof fn lemma_pattern_steps_pos(pos: nat, code: nat, k: nat)
    ensures
        pattern_steps(pos, code, k).0 == if pos >= 5 {
            pos
        } else if pos + k <= 5 {
            pos + k
        } else {
            5
        },
    decreases k,
{
    if k > 0 {
        lemma_pattern_steps_pos(pos, code, (k - 1) as nat);
    }
}

/// `nth(n)` yields what `n + 1` calls of `next` yield, and where the
/// iterator does not run past slot 5, ends where they end (at the end,
/// `nth` leaves the position as it is while the calls of `next` advance it
/// to slot 5).
pub proof fn law_nth_is_repeated_next(pos: nat, code: nat, n: nat)
    ensures
        pattern_skip(pos, code, n).1 == pattern_steps(pos, code, n + 1).1,
        pos + n < 5 ==> pattern_skip(pos, code, n).0 == pattern_steps(pos, code, n + 1).0,
{
    lemma_pattern_steps_pos(pos, code, n);
    lemma_pattern_steps_pos(pos, code, n + 1);
}

/// One call on the slots still to visit: from the front (`next`) or from
/// the back (`next_back`), the slots that then remain and the slot handed
/// out (`None` where nothing remains).
pub open spec fn take_end(rest: Seq<nat>, from_front: bool) -> (Seq<nat>, Option<nat>) {
    if rest.len() == 0 {
        (rest, None)
    } else if from_front {
        (rest.drop_first(), Some(rest[0]))
    } else {
        (rest.drop_last(), Some(rest.last()))
    }
}

/// The slots handed out, in order, by the calls `ops` (`true` for `next`,
/// `false` for `next_back`) on an iterator with slots `rest` still to visit.
pub open spec fn handed_out(rest: Seq<nat>, ops: Seq<bool>) -> Seq<nat>
    decreases ops.len(),
{
    if ops.len() == 0 {
        seq![]
    } else {
        let (r2, o) = take_end(rest, ops[0]);
        match o {
            Some(x) => seq![x] + handed_out(r2, ops.drop_first()),
            None => handed_out(r2, ops.drop_first()),
        }
    }
}

/// The slots still to visit after the calls `ops`.
pub open spec fn left_after(rest: Seq<nat>, ops: Seq<bool>) -> Seq<nat>
    decreases ops.len(),
{
    if ops.len() == 0 {
        rest
    } else {
        left_after(take_end(rest, ops[0]).0, ops.drop_first())
    }
}

/// Under any mix of calls of `next` and `next_back` on a sequence
/// iterator, each slot is handed out at most once: what was handed out and
/// what remains make up the slots (as a multiset); once there have been as
/// many calls as slots, every slot has been handed out exactly once and
/// nothing remains, so every further call yields `None`. Calling
/// `next_back` alone hands the slots out from the top down, that is in the
/// order the patterns were pushed.
pub proof fn law_seq_iter_any_mix(rest: Seq<nat>, ops: Seq<bool>)
    ensures
        handed_out(rest, ops).to_multiset().add(left_after(rest, ops).to_multiset()) == rest.to_multiset(),
        handed_out(rest, ops).len() + left_after(rest, ops).len() == rest.len(),
        ops.len() >= rest.len() ==> left_after(rest, ops).len() == 0 && handed_out(rest, ops).len() == rest.len(),
        (forall|k: int| 0 <= k < ops.len() ==> !#[trigger] ops[k]) && ops.len() == rest.len() ==> handed_out(rest, ops)
            == rest.reverse(),
    decreases ops.len(),
{
    broadcast use vstd::seq_lib::group_to_multiset_ensures;

    if ops.len() == 0 {
        assert(handed_out(rest, ops) =~= Seq::<nat>::empty());
        assert(Seq::<nat>::empty().to_multiset() =~= vstd::multiset::Multiset::empty());
        if rest.len() == 0 {
            assert(rest.reverse() =~= rest);
        }
    } else {
        let (r2, o) = take_end(rest, ops[0]);
        let tail = ops.drop_first();
        law_seq_iter_any_mix(r2, tail);
        if rest.len() > 0 {
            let x = if ops[0] { rest[0] } else { rest.last() };
            if ops[0] {
                assert(rest =~= seq![rest[0]] + rest.drop_first());
                vstd::seq_lib::lemma_multiset_commutative(seq![rest[0]], rest.drop_first());
            } else {
                assert(rest =~= rest.drop_last().push(rest.last()));
            }
            vstd::seq_lib::lemma_multiset_commutative(seq![x], handed_out(r2, tail));
            assert(seq![x].to_multiset() =~= vstd::multiset::Multiset::empty().insert(x)) by {
                assert(seq![x] =~= Seq::<nat>::empty().push(x));
            }
            assert(handed_out(rest, ops) == seq![x] + handed_out(r2, tail));
            if (forall|k: int| 0 <= k < ops.len() ==> !#[trigger] ops[k]) && ops.len() == rest.len() {
                assert forall|k: int| 0 <= k < tail.len() implies !#[trigger] tail[k] by {
                    assert(tail[k] == ops[k + 1]);
                }
                assert(!ops[0]);
                assert(handed_out(r2, tail) == r2.reverse());
                assert(seq![rest.last()] + rest.drop_last().reverse() =~= rest.reverse());
            }
        } else {
            assert(r2 == rest);
            if (forall|k: int| 0 <= k < ops.len() ==> !#[trigger] ops[k]) && ops.len() == rest.len() {
                assert(false);
            }
        }
    }
}

/// The two-bit codes of the categories: a run is 1, three or four of a kind
/// is 2, a pair is 3, and 0 is an empty slot. Pushing shifts the code up by
/// one slot and writes the new code into slot 0.
pub proof fn law_comb_codes(x: nat)
    ensures
        pushed_code(x, MJCombCategory::Shuntu) == (x * 4 + 1) % 65536,
        pushed_code(x, MJCombCategory::Koutu) == (x * 4 + 2) % 65536,
        pushed_code(x, MJCombCategory::Kantu) == (x * 4 + 2) % 65536,
        pushed_code(x, MJCombCategory::Tuitu) == (x * 4 + 3) % 65536,
        decode_comb(0) is None,
        decode_comb(1) == Some(MJCombCategory::Shuntu),
        decode_comb(2) == Some(MJCombCategory::Koutu),
        decode_comb(3) == Some(MJCombCategory::Tuitu),
{
}

/// A pattern's line shows each slot's combination as its letter and a
/// space: `S` for a run, `K` for three or four of a kind, `T` for a pair;
/// the first empty slot ends the letters.
pub proof fn law_pattern_letters(code: nat, k: nat)
    requires
        k < 5,
    ensures
        digit4(code, k) == 0 ==> letters_from(code, k) == Seq::<char>::empty(),
        digit4(code, k) == 1 ==> letters_from(code, k) == seq!['S', ' '] + letters_from(code, k + 1),
        digit4(code, k) == 2 ==> letters_from(code, k) == seq!['K', ' '] + letters_from(code, k + 1),
        digit4(code, k) == 3 ==> letters_from(code, k) == seq!['T', ' '] + letters_from(code, k + 1),
{
}

} // verus!
