use vstd::prelude::*;
use crate::mjcore::mjtile::MJTile;
use crate::mjcore::mjtile::face_is_prev;
use crate::mjcore::mjcomb::MJCombCategory;
use crate::agari::digits::len4;
use crate::agari::digits::pow4;
use crate::agari::digits::digits1024;
use crate::agari::digits::digit1024;
use crate::agari::digits::len1024;
use crate::agari::digits::lemma_len4_bound;
use crate::agari::digits::lemma_digits1024_index;
use crate::agari::pattern::take_while_nonzero;
use crate::agari::pattern::AgariPattern;
use crate::agari::pattern::AgariPatternSeq;
use crate::agari::pattern::code_has_tuitu;
use crate::agari::pattern::pushed_code;
use crate::agari::pattern::seq_pushed_code;
use crate::agari::pattern::front_items;
use crate::agari::pattern::back_items;
use crate::agari::pattern::reversed_code;
use crate::agari::pattern::lemma_pattern_from_category;
use crate::agari::pattern::lemma_seq_from_pattern;
use crate::agari::soundness::carries;
use crate::agari::soundness::table_fits;
use crate::agari::soundness::lemma_runs_hand;
use crate::agari::completeness::faces_rise;
use crate::agari::completeness::is_split_pattern;
use crate::agari::completeness::law_search_lists_the_splits;
use crate::agari::completeness::law_search_pattern_lists_the_splits;
use crate::agari::completeness::lemma_runs_positive;
use crate::agari::soundness::state_q;
use crate::agari::soundness::state_lv;

verus! {

/// One row of the search table: for each of the 15 residue states, the code
/// of the pattern sequence reached there, if the state was reached.
pub type Row = Seq<Option<nat>>;

/// The row in which no state is reached.
pub open spec fn empty_row() -> Row {
    Seq::new(15, |j: int| None)
}

/// The runs of equal faces in `faces`, in order: each run's face and length.
pub open spec fn run_counts(faces: Seq<u8>) -> Seq<(u8, nat)>
    decreases faces.len(),
{
    if faces.len() == 0 {
        seq![]
    } else {
        let r = run_counts(faces.drop_last());
        if r.len() > 0 && r.last().0 == faces.last() {
            r.update(r.len() - 1, (faces.last(), r.last().1 + 1))
        } else {
            r.push((faces.last(), 1nat))
        }
    }
}

/// The sequence code in a cell, 0 where the state was not reached.
pub open spec fn cell_code(row: Row, j: int) -> nat {
    match row[j] {
        Some(c) => c,
        None => 0,
    }
}

/// The sequence code after a pattern code of more than ten bits is pushed:
/// the 64-bit code shifted up ten bits, with the pattern's bits or-ed in
/// (they reach into slot 1).
pub open spec fn seq_or_code(c: nat, p: nat) -> nat {
    (((c as u64) << 10u64) | (p as u64)) as nat
}

/// The row after pattern code `p` is pushed onto the sequence in state `j`
/// (the state becomes reached).
pub open spec fn row_push(row: Row, j: int, p: nat) -> Row {
    row.update(
        j,
        Some(
            if p < 1024 {
                seq_pushed_code(cell_code(row, j), p)
            } else {
                seq_or_code(cell_code(row, j), p)
            },
        ),
    )
}

/// The patterns that a reached state passes on: those that iterating its
/// sequence from the front yields, or the empty pattern when there are none.
pub open spec fn at_least(c: nat) -> Seq<nat> {
    if front_items(c).len() == 0 {
        seq![0nat]
    } else {
        front_items(c)
    }
}

/// The row after each pattern of `ps` is pushed, in order, onto state `j`.
pub open spec fn push_each(row: Row, j: int, ps: Seq<nat>) -> Row
    decreases ps.len(),
{
    if ps.len() == 0 {
        row
    } else {
        row_push(push_each(row, j, ps.drop_last()), j, ps.last())
    }
}

/// A pattern code with `m` more combinations of category `cate` shifted in.
pub open spec fn pushed_times(p: nat, cate: MJCombCategory, m: nat) -> nat
    decreases m,
{
    if m == 0 {
        p
    } else {
        pushed_code(pushed_times(p, cate, (m - 1) as nat), cate)
    }
}

/// The row after `m` patterns, `p` with one, two, ... `m` combinations of
/// `cate` added, are pushed onto state `j`.
pub open spec fn push_repeat(row: Row, j: int, p: nat, cate: MJCombCategory, m: nat) -> Row
    decreases m,
{
    if m == 0 {
        row
    } else {
        row_push(push_repeat(row, j, p, cate, (m - 1) as nat), j, pushed_times(p, cate, m))
    }
}

/// The row after pattern `p` is extended by `cate` into state `j`: a pair is
/// added once, where `p` holds no pair and fewer than five combinations;
/// another category is added `max(1, n)` times (each step pushed), where the
/// combinations then number at most five.
pub open spec fn push_cat_step(row: Row, j: int, p: nat, cate: MJCombCategory, n: nat) -> Row {
    if cate == MJCombCategory::Tuitu {
        if !code_has_tuitu(p) && len4(p) < 5 {
            row_push(row, j, pushed_code(p, cate))
        } else {
            row
        }
    } else if len4(p) + n <= 5 {
        push_repeat(row, j, p, cate, if n > 1 { n } else { 1 })
    } else {
        row
    }
}

/// `push_cat_step` for each pattern of `ps` in order.
pub open spec fn push_cat_each(row: Row, j: int, ps: Seq<nat>, cate: MJCombCategory, n: nat) -> Row
    decreases ps.len(),
{
    if ps.len() == 0 {
        row
    } else {
        push_cat_step(push_cat_each(row, j, ps.drop_last(), cate, n), j, ps.last(), cate, n)
    }
}

/// The sequence of the patterns of `ps` that can take `lv` more runs, each
/// with those runs added.
pub open spec fn shuntu_seq(ps: Seq<nat>, lv: nat) -> nat
    decreases ps.len(),
{
    if ps.len() == 0 {
        0
    } else {
        let c = shuntu_seq(ps.drop_last(), lv);
        if len4(ps.last()) + lv <= 5 {
            seq_pushed_code(c, pushed_times(ps.last(), MJCombCategory::Shuntu, lv))
        } else {
            c
        }
    }
}

/// The first state of the block of states with `lv` open two-tile runs.
pub open spec fn block_base(lv: int) -> int {
    if lv == 0 {
        0
    } else if lv == 1 {
        5
    } else if lv == 2 {
        9
    } else if lv == 3 {
        12
    } else {
        14
    }
}

/// The number of open two-tile runs of a state from 5 to 14.
pub open spec fn open_runs(j: int) -> int {
    if 5 <= j <= 8 {
        1
    } else if 9 <= j <= 11 {
        2
    } else if 12 <= j <= 13 {
        3
    } else if j == 14 {
        4
    } else {
        0
    }
}

/// The row after the sequence `c`, reached in state `j` at the previous tile
/// `l`, meets the `n` tiles of tile `r` with `lv` two-tile runs already
/// extended into `r` (state semantics as in the search table).
pub open spec fn update(row: Row, c: nat, j: int, l: u8, r: u8, n: int, lv: int) -> Row
    decreases j,
{
    if j == 0 {
        let b = block_base(lv);
        let ps = at_least(c);
        let row1 = push_each(row, b + n, ps);
        if n == 2 {
            push_cat_each(row1, b, ps, MJCombCategory::Tuitu, 1)
        } else if n == 3 {
            push_cat_each(
                push_cat_each(row1, b + 1, ps, MJCombCategory::Tuitu, 1),
                b,
                ps,
                MJCombCategory::Koutu,
                1,
            )
        } else if n == 4 {
            push_cat_each(
                push_cat_each(row1, b + 2, ps, MJCombCategory::Tuitu, 1),
                b + 1,
                ps,
                MJCombCategory::Koutu,
                1,
            )
        } else {
            row1
        }
    } else if 1 <= j <= 4 {
        if n >= j && face_is_prev(l, r) {
            update(row, c, 0, l, r, n - j, j)
        } else {
            row
        }
    } else if 5 <= j <= 14 {
        let lv_ = open_runs(j);
        let lq = j - block_base(lv_);
        if n >= lq + lv_ && face_is_prev(l, r) {
            update(row, shuntu_seq(at_least(c), lv_ as nat), 0, l, r, n - (lq + lv_), lq)
        } else {
            row
        }
    } else {
        row
    }
}

/// The first row: the first tile's `n` copies, left single, or forming a pair
/// or three of a kind.
pub open spec fn init_row(n: nat) -> Row {
    let r0 = empty_row().update(n as int, Some(0nat));
    if n == 2 {
        r0.update(0, Some(3nat))
    } else if n == 3 {
        r0.update(0, Some(2nat)).update(1, Some(3nat))
    } else if n == 4 {
        r0.update(1, Some(2nat)).update(2, Some(3nat))
    } else {
        r0
    }
}

/// The row built from the states `0..k` of the previous row.
pub open spec fn next_row_upto(prev: Row, l: u8, r: u8, n: nat, k: nat) -> Row
    decreases k,
{
    if k == 0 {
        empty_row()
    } else {
        let row = next_row_upto(prev, l, r, n, (k - 1) as nat);
        match prev[k - 1] {
            Some(c) => update(row, c, k - 1, l, r, n as int, 0),
            None => row,
        }
    }
}

/// The search table's row for the first `i + 1` runs of equal tiles.
pub open spec fn dp_row(runs: Seq<(u8, nat)>, i: nat) -> Row
    decreases i,
{
    if i == 0 {
        init_row(runs[0].1)
    } else {
        next_row_upto(dp_row(runs, (i - 1) as nat), runs[i - 1].0, runs[i as int].0, runs[i as int].1, 15)
    }
}

/// The pattern codes that the search returns for the runs: those of the
/// final state-0 sequence, oldest first, each reversed so that its first
/// combination sits in slot 0.
pub open spec fn search_result(runs: Seq<(u8, nat)>) -> Seq<nat> {
    match dp_row(runs, (runs.len() - 1) as nat)[0] {
        Some(c) => back_items(c).map_values(|p: nat| reversed_code(p)),
        None => seq![],
    }
}

/// The face codes of a sequence of tiles.
pub open spec fn tile_faces(tiles: Seq<MJTile>) -> Seq<u8> {
    tiles.map_values(|t: MJTile| t.face())
}

// ----- facts about codes -----

proof fn lemma_pow4_small()
    ensures
        pow4(5) == 1024,
        pow4(7) == 16384,
{
    reveal_with_fuel(pow4, 8);
}

/// A pattern of at most five combinations has a code below 1024.
proof fn lemma_short_code(p: nat)
    requires
        len4(p) <= 5,
    ensures
        p < 1024,
{
    lemma_pow4_small();
    lemma_len4_bound(p, 5);
}

/// Adding combinations to a short pattern lengthens it by as many.
proof fn lemma_pushed_times_len(p: nat, cate: MJCombCategory, m: nat)
    requires
        len4(p) + m <= 8,
    ensures
        len4(pushed_times(p, cate, m)) == len4(p) + m,
    decreases m,
{
    if m > 0 {
        let q = pushed_times(p, cate, (m - 1) as nat);
        lemma_pushed_times_len(p, cate, (m - 1) as nat);
        lemma_pow4_small();
        lemma_len4_bound(q, 7);
        let e = crate::agari::pattern::comb_code(cate);
        assert(q * 4 + e < 65536);
        assert(pushed_code(q, cate) == q * 4 + e);
        assert((q * 4 + e) / 4 == q);
    }
}

/// The patterns that a sequence passes on are its nonzero leading slots, all
/// below 1024.
proof fn lemma_take_while_prefix(s: Seq<nat>, k: nat)
    requires
        k <= s.len(),
        forall|i: int| 0 <= i < k ==> s[i] != 0,
    ensures
        take_while_nonzero(s) =~= s.take(k as int) + take_while_nonzero(s.skip(k as int)),
    decreases k,
{
    if k > 0 {
        lemma_take_while_prefix(s.drop_first(), (k - 1) as nat);
        assert(s.drop_first().skip(k - 1) =~= s.skip(k as int));
        assert(seq![s[0]] + s.drop_first().take(k - 1) =~= s.take(k as int));
    } else {
        assert(s.skip(0) =~= s);
    }
}

proof fn lemma_take_while_stop(s: Seq<nat>, k: nat)
    requires
        k <= s.len(),
        k == s.len() || s[k as int] == 0,
    ensures
        take_while_nonzero(s.skip(k as int)) =~= seq![],
{
    if k < s.len() {
        assert(s.skip(k as int)[0] == s[k as int]);
    }
}

// ----- the table -----

/// The sequence code held in a table cell, if the state is reached.
pub open spec fn seq_cell(o: Option<AgariPatternSeq>) -> Option<nat> {
    match o {
        Some(s) => Some(s.spec_code() as nat),
        None => None,
    }
}

/// The search table: 14 rows (one per run of equal tiles) of 15 states.
struct SearchDPTable(Vec<Option<AgariPatternSeq>>);

impl SearchDPTable {
    spec fn wf(self) -> bool {
        self.0@.len() == 210
    }

    spec fn row(self, i: int) -> Row {
        Seq::new(15, |j: int| seq_cell(self.0@[15 * i + j]))
    }

    /// `other` differs from `self` in row `i` at most.
    spec fn same_outside(self, other: Self, i: int) -> bool {
        &&& other.0@.len() == self.0@.len()
        &&& forall|k: int|
            0 <= k < self.0@.len() && !(15 * i <= k < 15 * i + 15) ==> other.0@[k] == self.0@[k]
    }

    proof fn lemma_same_outside_trans(a: Self, b: Self, c: Self, i: int)
        requires
            a.same_outside(b, i),
            b.same_outside(c, i),
        ensures
            a.same_outside(c, i),
    {
    }

    proof fn lemma_same_outside_rows(a: Self, b: Self, i: int, i2: int)
        requires
            a.same_outside(b, i),
            a.wf(),
            0 <= i2 < 14,
            i2 != i,
        ensures
            b.row(i2) == a.row(i2),
    {
        assert forall|j: int| 0 <= j < 15 implies b.row(i2)[j] == a.row(i2)[j] by {
            assert(!(15 * i <= 15 * i2 + j < 15 * i + 15));
        }
        assert(b.row(i2) =~= a.row(i2));
    }

    fn new() -> (r: Self)
        ensures
            r.wf(),
            forall|i: int| 0 <= i < 14 ==> #[trigger] r.row(i) == empty_row(),
    {
        let mut v: Vec<Option<AgariPatternSeq>> = Vec::new();
        for k in 0..210usize
            invariant
                v@.len() == k,
                forall|t: int| 0 <= t < k ==> v@[t] is None,
        {
            v.push(None);
        }
        let r = SearchDPTable(v);
        proof {
            assert forall|i: int| 0 <= i < 14 implies #[trigger] r.row(i) == empty_row() by {
                assert(r.row(i) =~= empty_row());
            }
        }
        r
    }

    fn get(&self, i: usize, j: usize) -> (r: Option<AgariPatternSeq>)
        requires
            self.wf(),
            i < 14,
            j < 15,
        ensures
            seq_cell(r) == self.row(i as int)[j as int],
    {
        self.0[i * 15 + j]
    }

    fn set(&mut self, i: usize, j: usize, value: AgariPatternSeq)
        requires
            old(self).wf(),
            i < 14,
            j < 15,
        ensures
            final(self).wf(),
            old(self).same_outside(*final(self), i as int),
            final(self).row(i as int) == old(self).row(i as int).update(j as int, Some(value.spec_code() as nat)),
    {
        self.0.set(i * 15 + j, Some(value));
        proof {
            assert(final(self).row(i as int) =~= old(self).row(i as int).update(j as int, Some(value.spec_code() as nat)));
        }
    }

    /// Marks state `j` of row `i` reached, with the empty sequence if it was not.
    fn legalize_ij(&mut self, i: usize, j: usize)
        requires
            old(self).wf(),
            i < 14,
            j < 15,
        ensures
            final(self).wf(),
            old(self).same_outside(*final(self), i as int),
            final(self).row(i as int) == old(self).row(i as int).update(j as int, Some(cell_code(old(self).row(i as int), j as int))),
    {
        let x = match self.get(i, j) {
            Some(x) => x,
            _ => AgariPatternSeq::new(),
        };
        self.set(i, j, x);
    }

    /// Pushes a pattern onto the sequence in state `j` of row `i`.
    fn ij_push(&mut self, i: u8, j: u8, patt: AgariPattern)
        requires
            old(self).wf(),
            i < 14,
            j < 15,
        ensures
            final(self).wf(),
            old(self).same_outside(*final(self), i as int),
            final(self).row(i as int) == row_push(old(self).row(i as int), j as int, patt.spec_code() as nat),
    {
        let (i, j) = (i as usize, j as usize);
        let mut x = match self.get(i, j) {
            Some(x) => x,
            _ => AgariPatternSeq::new(),
        };
        x.push(patt);
        self.set(i, j, x);
    }

    /// The patterns that the sequence passes on (see `at_least`).
    fn foreach_at_least(patt_seq: AgariPatternSeq) -> (r: Vec<AgariPattern>)
        ensures
            r@.map_values(|p: AgariPattern| p.spec_code() as nat) == at_least(patt_seq.spec_code() as nat),
            forall|k: int| 0 <= k < r@.len() ==> (#[trigger] r@[k]).spec_code() < 1024,
    {
        let ghost c = patt_seq.spec_code() as nat;
        let ghost d = digits1024(c);
        let mut out: Vec<AgariPattern> = Vec::new();
        let mut it = patt_seq.iter();
        proof {
            lemma_digits1024_index(c, 0);
        }
        loop
            invariant_except_break
                it.spec_seq() == patt_seq,
                it.spec_back() as nat == len1024(c),
                c == patt_seq.spec_code() as nat,
                d == digits1024(c),
                d.len() == len1024(c),
                it.spec_front() <= it.spec_back(),
                out@.len() == it.spec_front(),
            invariant
                forall|t: int| 0 <= t < out@.len() ==> d[t] != 0,
                out@.map_values(|p: AgariPattern| p.spec_code() as nat) =~= d.take(out@.len() as int),
                forall|k: int| 0 <= k < out@.len() ==> (#[trigger] out@[k]).spec_code() < 1024,
            ensures
                out@.map_values(|p: AgariPattern| p.spec_code() as nat) =~= front_items(c),
                forall|k: int| 0 <= k < out@.len() ==> (#[trigger] out@[k]).spec_code() < 1024,
            decreases it.spec_back() - it.spec_front(),
        {
            let ghost f = it.spec_front();
            proof {
                if f < it.spec_back() {
                    lemma_digits1024_index(c, f as nat);
                }
            }
            let nx = it.next();
            proof {
                if f < len1024(c) {
                    assert(nx is None <==> digit1024(c, f as nat) == 0);
                    assert(nx matches Some(p) ==> p.spec_code() as nat == digit1024(c, f as nat));
                } else {
                    assert(nx is None);
                }
            }
            match nx {
                Some(p) => {
                    proof {
                        assert(f < it.spec_back());
                        assert(d[f as int] == digit1024(c, f as nat));
                        assert(p.spec_code() as nat == d[f as int]);
                    }
                    let ghost prev = out@;
                    out.push(p);
                    proof {
                        assert(out@ =~= prev.push(p));
                        assert(d.take(f + 1) =~= d.take(f as int).push(d[f as int]));
                        assert(out@.map_values(|p: AgariPattern| p.spec_code() as nat) =~= prev.map_values(|p: AgariPattern| p.spec_code() as nat).push(p.spec_code() as nat));
                    }
                },
                None => {
                    proof {
                        lemma_take_while_prefix(d, f as nat);
                        lemma_take_while_stop(d, f as nat);
                    }
                    break;
                },
            }
        }
        if out.len() == 0 {
            out.push(AgariPattern::new());
            proof {
                assert(out@.map_values(|p: AgariPattern| p.spec_code() as nat) =~= seq![0nat]);
            }
        }
        out
    }

    /// Pushes each pattern that the sequence passes on onto state `j` of row `i`.
    fn foreach_clone_from(&mut self, patt_seq: AgariPatternSeq, i: u8, j: u8)
        requires
            old(self).wf(),
            i < 14,
            j < 15,
        ensures
            final(self).wf(),
            old(self).same_outside(*final(self), i as int),
            final(self).row(i as int) == push_each(old(self).row(i as int), j as int, at_least(patt_seq.spec_code() as nat)),
    {
        let ps = Self::foreach_at_least(patt_seq);
        let ghost pv = ps@.map_values(|p: AgariPattern| p.spec_code() as nat);
        let ghost t0 = *self;
        for k in 0..ps.len()
            invariant
                self.wf(),
                i < 14,
                j < 15,
                t0.wf(),
                t0.same_outside(*self, i as int),
                pv == ps@.map_values(|p: AgariPattern| p.spec_code() as nat),
                forall|k: int| 0 <= k < ps@.len() ==> (#[trigger] ps@[k]).spec_code() < 1024,
                self.row(i as int) == push_each(t0.row(i as int), j as int, pv.take(k as int)),
        {
            let ghost t1 = *self;
            self.ij_push(i, j, ps[k]);
            proof {
                Self::lemma_same_outside_trans(t0, t1, *self, i as int);
                assert(pv.take(k + 1).drop_last() =~= pv.take(k as int));
            }
        }
        proof {
            assert(pv.take(ps@.len() as int) =~= pv);
        }
    }

    /// Extends each pattern that the sequence passes on by `cate` into state
    /// `j` of row `i` (see `push_cat_step`).
    fn foreach_push_n_with(
        &mut self,
        patt_seq: AgariPatternSeq,
        i: u8,
        j: u8,
        cate: MJCombCategory,
        repeat_n: u8,
    )
        requires
            old(self).wf(),
            i < 14,
            j < 15,
        ensures
            final(self).wf(),
            old(self).same_outside(*final(self), i as int),
            final(self).row(i as int) == push_cat_each(
                old(self).row(i as int),
                j as int,
                at_least(patt_seq.spec_code() as nat),
                cate,
                repeat_n as nat,
            ),
    {
        let ps = Self::foreach_at_least(patt_seq);
        let ghost pv = ps@.map_values(|p: AgariPattern| p.spec_code() as nat);
        let ghost t0 = *self;
        for k in 0..ps.len()
            invariant
                self.wf(),
                i < 14,
                j < 15,
                t0.wf(),
                t0.same_outside(*self, i as int),
                pv == ps@.map_values(|p: AgariPattern| p.spec_code() as nat),
                forall|k: int| 0 <= k < ps@.len() ==> (#[trigger] ps@[k]).spec_code() < 1024,
                self.row(i as int) == push_cat_each(t0.row(i as int), j as int, pv.take(k as int), cate, repeat_n as nat),
        {
            let ghost t1 = *self;
            let mut patt = ps[k];
            let ghost p0 = patt.spec_code() as nat;
            proof {
                assert(pv[k as int] == p0);
                assert(pv.take(k + 1).drop_last() =~= pv.take(k as int));
                assert(pv.take(k + 1).last() == p0);
            }
            if cate == MJCombCategory::Tuitu {
                // the repeat count does not apply to a pair
                if !patt.has_tuitu() && patt.len() < AgariPattern::MAX_COMB_COUNT {
                    patt.push(MJCombCategory::Tuitu);
                    proof {
                        lemma_pushed_times_len(p0, cate, 1);
                        assert(pushed_times(p0, cate, 1) == pushed_code(p0, cate)) by {
                            assert(pushed_times(p0, cate, 0) == p0);
                        }
                        lemma_short_code(patt.spec_code() as nat);
                    }
                    self.ij_push(i, j, patt);
                }
            } else {
                if patt.len() + (repeat_n as usize) <= AgariPattern::MAX_COMB_COUNT {
                    let m: u8 = if repeat_n > 1 { repeat_n } else { 1 };
                    let ghost r0 = self.row(i as int);
                    for t in 0..m
                        invariant
                            self.wf(),
                            i < 14,
                            j < 15,
                            t0.wf(),
                            t0.same_outside(*self, i as int),
                            patt.spec_code() as nat == pushed_times(p0, cate, t as nat),
                            self.row(i as int) == push_repeat(r0, j as int, p0, cate, t as nat),
                    {
                        let ghost t2 = *self;
                        patt.push(cate);
                        self.ij_push(i, j, patt);
                        proof {
                            Self::lemma_same_outside_trans(t0, t2, *self, i as int);
                        }
                    }
                }
            }
            proof {
                Self::lemma_same_outside_trans(t0, t1, *self, i as int);
            }
        }
        proof {
            assert(pv.take(ps@.len() as int) =~= pv);
        }
    }

    fn foreach_push_with(&mut self, patt_seq: AgariPatternSeq, i: u8, j: u8, cate: MJCombCategory)
        requires
            old(self).wf(),
            i < 14,
            j < 15,
        ensures
            final(self).wf(),
            old(self).same_outside(*final(self), i as int),
            final(self).row(i as int) == push_cat_each(
                old(self).row(i as int),
                j as int,
                at_least(patt_seq.spec_code() as nat),
                cate,
                1,
            ),
    {
        self.foreach_push_n_with(patt_seq, i, j, cate, 1)
    }

    /// The first state of the block with `lv` open two-tile runs.
    fn lv2b(lv: u8) -> (r: u8)
        requires
            lv <= 4,
        ensures
            r as int == block_base(lv as int),
    {
        proof {
            assert(lv == 0 || lv == 1 || lv == 2 || lv == 3 || lv == 4);
            assert((11 - lv) * lv <= 44) by (nonlinear_arith)
                requires
                    lv <= 4,
            ;
        }
        (11 - lv) * lv / 2
    }

    /// The sequence of the patterns that `patt_seq` passes on and that can take
    /// `lv` more runs, each with those runs added.
    fn extend_with_runs(patt_seq: AgariPatternSeq, lv: u8) -> (r: AgariPatternSeq)
        requires
            1 <= lv <= 4,
        ensures
            r.spec_code() as nat == shuntu_seq(at_least(patt_seq.spec_code() as nat), lv as nat),
    {
        let ps = Self::foreach_at_least(patt_seq);
        let ghost pv = ps@.map_values(|p: AgariPattern| p.spec_code() as nat);
        let mut patt_seq_ = AgariPatternSeq::new();
        for k in 0..ps.len()
            invariant
                1 <= lv <= 4,
                pv == ps@.map_values(|p: AgariPattern| p.spec_code() as nat),
                forall|k: int| 0 <= k < ps@.len() ==> (#[trigger] ps@[k]).spec_code() < 1024,
                patt_seq_.spec_code() as nat == shuntu_seq(pv.take(k as int), lv as nat),
        {
            let mut patt = ps[k];
            let ghost p0 = patt.spec_code() as nat;
            proof {
                assert(pv[k as int] == p0);
                assert(pv.take(k + 1).drop_last() =~= pv.take(k as int));
                assert(pv.take(k + 1).last() == p0);
            }
            if patt.len() + (lv as usize) <= AgariPattern::MAX_COMB_COUNT {
                for t in 0..lv
                    invariant
                        len4(p0) + lv <= 5,
                        patt.spec_code() as nat == pushed_times(p0, MJCombCategory::Shuntu, t as nat),
                {
                    patt.push(MJCombCategory::Shuntu);
                }
                proof {
                    lemma_pushed_times_len(p0, MJCombCategory::Shuntu, lv as nat);
                    lemma_short_code(patt.spec_code() as nat);
                }
                patt_seq_.push(patt);
            }
        }
        proof {
            assert(pv.take(ps@.len() as int) =~= pv);
        }
        patt_seq_
    }

    /// Continues the sequence `patt_seq`, reached in state `j` at tile `l`, with
    /// the `n` tiles of tile `r` into row `i` (see `update`).
    fn update_i_with_jlrn(
        &mut self,
        patt_seq: AgariPatternSeq,
        i: u8,
        j: u8,
        l: MJTile,
        r: MJTile,
        n: u8,
        lv: u8,
    )
        requires
            old(self).wf(),
            i < 14,
            j == 0 ==> lv <= 4 && block_base(lv as int) + n < 15,
            1 <= j <= 14 && carries(l.face(), r.face(), n as int, j as int) ==> block_base(state_q(j as int))
                + n - state_q(j as int) - state_lv(j as int) < 15,
        ensures
            final(self).wf(),
            old(self).same_outside(*final(self), i as int),
            final(self).row(i as int) == update(
                old(self).row(i as int),
                patt_seq.spec_code() as nat,
                j as int,
                l.face(),
                r.face(),
                n as int,
                lv as int,
            ),
        decreases j,
    {
        let ghost t0 = *self;
        if j == 0 {
            let b = Self::lv2b(lv);
            self.foreach_clone_from(patt_seq, i, b + n);
            let ghost t1 = *self;
            if n == 2 {
                self.foreach_push_with(patt_seq, i, b, MJCombCategory::Tuitu);
                proof {
                    Self::lemma_same_outside_trans(t0, t1, *self, i as int);
                }
            } else if n == 3 {
                self.foreach_push_with(patt_seq, i, b + 1, MJCombCategory::Tuitu);
                let ghost t2 = *self;
                self.foreach_push_with(patt_seq, i, b, MJCombCategory::Koutu);
                proof {
                    Self::lemma_same_outside_trans(t0, t1, t2, i as int);
                    Self::lemma_same_outside_trans(t0, t2, *self, i as int);
                }
            } else if n == 4 {
                self.foreach_push_with(patt_seq, i, b + 2, MJCombCategory::Tuitu);
                let ghost t2 = *self;
                self.foreach_push_with(patt_seq, i, b + 1, MJCombCategory::Koutu);
                proof {
                    Self::lemma_same_outside_trans(t0, t1, t2, i as int);
                    Self::lemma_same_outside_trans(t0, t2, *self, i as int);
                }
            }
        } else if j > 14 {
        } else if j <= 4 {
            if n >= j && l.is_number_prev_to(r) {
                self.update_i_with_jlrn(patt_seq, i, 0, l, r, n - j, j);
            }
        } else {
            let lv_: u8 = if j <= 8 {
                1
            } else if j <= 11 {
                2
            } else if j <= 13 {
                3
            } else {
                4
            };
            let lq = j - Self::lv2b(lv_);
            if n >= lq + lv_ && l.is_number_prev_to(r) {
                let patt_seq = Self::extend_with_runs(patt_seq, lv_);
                self.update_i_with_jlrn(patt_seq, i, 0, l, r, n - (lq + lv_), lq);
            }
        }
    }
}

/// The faces and counts of a vector of runs.
pub open spec fn counts_view(v: Seq<(MJTile, u8)>) -> Seq<(u8, nat)> {
    v.map_values(|x: (MJTile, u8)| (x.0.face(), x.1 as nat))
}

/// Whether every run of equal faces holds at most four tiles.
pub open spec fn runs_within_four(runs: Seq<(u8, nat)>) -> bool {
    forall|k: int| 0 <= k < runs.len() ==> (#[trigger] runs[k]).1 <= 4
}

/// The patterns of the tiles' last run-of-runs state, read from the back:
/// the codes of the sequence's slots from the top down to the first empty
/// one, each reversed.
fn collect_reversed(final_seq: AgariPatternSeq) -> (r: Vec<AgariPattern>)
    ensures
        r@.map_values(|p: AgariPattern| p.spec_code() as nat) == back_items(final_seq.spec_code() as nat).map_values(
            |p: nat| reversed_code(p),
        ),
{
    let ghost c = final_seq.spec_code() as nat;
    let ghost d = digits1024(c);
    let ghost rv = d.reverse();
    let mut out: Vec<AgariPattern> = Vec::new();
    let mut it = final_seq.iter();
    proof {
        lemma_digits1024_index(c, 0);
    }
    loop
        invariant_except_break
            it.spec_seq() == final_seq,
            it.spec_front() == 0,
            c == final_seq.spec_code() as nat,
            d == digits1024(c),
            rv == d.reverse(),
            d.len() == len1024(c),
            it.spec_back() <= d.len(),
            out@.len() == d.len() - it.spec_back(),
            forall|t: int| 0 <= t < out@.len() ==> rv[t] != 0,
            out@.map_values(|p: AgariPattern| p.spec_code() as nat) =~= rv.take(out@.len() as int).map_values(
                |p: nat| reversed_code(p),
            ),
        ensures
            out@.map_values(|p: AgariPattern| p.spec_code() as nat) =~= back_items(c).map_values(
                |p: nat| reversed_code(p),
            ),
        decreases it.spec_back(),
    {
        let ghost b = it.spec_back();
        let ghost t = out@.len();
        proof {
            if b > 0 {
                lemma_digits1024_index(c, (b - 1) as nat);
                assert(rv[t as int] == d[b - 1]);
            }
        }
        let nx = it.next_back();
        proof {
            if 0 < b {
                assert(nx is None <==> digit1024(c, (b - 1) as nat) == 0);
                assert(nx matches Some(p) ==> p.spec_code() as nat == digit1024(c, (b - 1) as nat));
            } else {
                assert(nx is None);
            }
        }
        match nx {
            Some(p) => {
                let q = p.reversed();
                let ghost prev = out@;
                out.push(q);
                proof {
                    assert(out@ =~= prev.push(q));
                    assert(rv.take((t + 1) as int) =~= rv.take(t as int).push(rv[t as int]));
                    assert(out@.map_values(|p: AgariPattern| p.spec_code() as nat) =~= prev.map_values(
                        |p: AgariPattern| p.spec_code() as nat,
                    ).push(q.spec_code() as nat));
                    assert(rv.take((t + 1) as int).map_values(|p: nat| reversed_code(p)) =~= rv.take(t as int).map_values(
                        |p: nat| reversed_code(p),
                    ).push(reversed_code(rv[t as int])));
                }
            },
            None => {
                proof {
                    lemma_take_while_prefix(rv, t as nat);
                    lemma_take_while_stop(rv, t as nat);
                    assert(back_items(c) =~= rv.take(t as int));
                }
                break ;
            },
        }
    }
    out
}

/// The winning-hand patterns of tiles given in runs of equal faces (sorted
/// tiles, most commonly): `search_result` of the runs. Each pattern lists
/// its combinations in the order in which the search completed them, the
/// first in slot 0; the list is empty when no state-0 sequence is reached.
///
/// Every state of the search table is carried on to the next run, the state
/// with four open two-tile runs included, as the table's description
/// defines them; so the splits that pass through four open runs (four each
/// of three faces in a row, taken as four runs of three faces) are found.
///
/// Where the runs' faces rise (sorted tiles) and no cell of the table
/// gathers more than six patterns (`table_fits`), the results are exactly
/// the splits of the tiles, each listing its combinations in completion
/// order (`is_split_pattern`).
pub fn search_pattern_sorted(sorted_tiles: &[MJTile]) -> (res: Vec<AgariPattern>)
    requires
        0 < sorted_tiles@.len() <= 14,
        runs_within_four(run_counts(tile_faces(sorted_tiles@))),
    ensures
        res@.map_values(|p: AgariPattern| p.spec_code() as nat) == search_result(
            run_counts(tile_faces(sorted_tiles@)),
        ),
        faces_rise(run_counts(tile_faces(sorted_tiles@))) && table_fits(run_counts(tile_faces(sorted_tiles@)))
            ==> forall|p: nat|
            res@.map_values(|q: AgariPattern| q.spec_code() as nat).contains(p) <==> #[trigger] is_split_pattern(
                run_counts(tile_faces(sorted_tiles@)),
                p,
            ),
{
    let tiles_len = sorted_tiles.len();
    let ghost faces = tile_faces(sorted_tiles@);
    let ghost runs = run_counts(faces);
    let mut counts: Vec<(MJTile, u8)> = Vec::new();
    for idx in 0..tiles_len
        invariant
            tiles_len == sorted_tiles@.len(),
            tiles_len <= 14,
            faces == tile_faces(sorted_tiles@),
            counts_view(counts@) =~= run_counts(faces.take(idx as int)),
            counts@.len() <= idx,
            forall|k: int| 0 <= k < counts@.len() ==> (#[trigger] counts@[k]).1 <= idx,
    {
        let tile = sorted_tiles[idx];
        let ghost before = faces.take(idx as int);
        proof {
            assert(faces.take(idx + 1).drop_last() =~= before);
            assert(faces.take(idx + 1).last() == tile.face());
        }
        if counts.len() > 0 && tile == counts[counts.len() - 1].0 {
            let k = counts.len() - 1;
            let last = counts[k];
            counts.set(k, (last.0, last.1 + 1));
        } else {
            counts.push((tile, 1));
        }
        proof {
            assert(counts_view(counts@) =~= run_counts(faces.take(idx + 1)));
        }
    }
    proof {
        assert(faces.take(tiles_len as int) =~= faces);
    }
    let mut dp = SearchDPTable::new();
    let n0 = counts[0].1;
    {
        let empty_seq = AgariPatternSeq::new();
        let tuitu = AgariPattern::from(MJCombCategory::Tuitu);
        let koutu = AgariPattern::from(MJCombCategory::Koutu);
        let tuitu_seq = AgariPatternSeq::from(tuitu);
        let koutu_seq = AgariPatternSeq::from(koutu);
        proof {
            lemma_pattern_from_category(MJCombCategory::Tuitu);
            lemma_pattern_from_category(MJCombCategory::Koutu);
            lemma_seq_from_pattern(tuitu);
            lemma_seq_from_pattern(koutu);
        }
        let ghost t0 = dp;
        dp.set(0, n0 as usize, empty_seq);
        let ghost t1 = dp;
        if n0 == 2 {
            dp.set(0, 0, tuitu_seq);
            proof { SearchDPTable::lemma_same_outside_trans(t0, t1, dp, 0); }
        } else if n0 == 3 {
            dp.set(0, 0, koutu_seq);
            let ghost t2 = dp;
            dp.set(0, 1, tuitu_seq);
            proof {
                SearchDPTable::lemma_same_outside_trans(t0, t1, t2, 0);
                SearchDPTable::lemma_same_outside_trans(t0, t2, dp, 0);
            }
        } else if n0 == 4 {
            dp.set(0, 1, koutu_seq);
            let ghost t2 = dp;
            dp.set(0, 2, tuitu_seq);
            proof {
                SearchDPTable::lemma_same_outside_trans(t0, t1, t2, 0);
                SearchDPTable::lemma_same_outside_trans(t0, t2, dp, 0);
            }
        }
        proof {
            assert(dp.row(0) =~= init_row(runs[0].1));
            assert forall|i2: int| 1 <= i2 < 14 implies #[trigger] dp.row(i2) == empty_row() by {
                SearchDPTable::lemma_same_outside_rows(t0, dp, 0, i2);
            }
        }
    }
    let nruns = counts.len();
    let mut i: usize = 1;
    while i < nruns
        invariant
            dp.wf(),
            1 <= i <= nruns,
            nruns == counts@.len(),
            nruns <= 14,
            counts_view(counts@) == runs,
            runs_within_four(runs),
            forall|i2: int| 0 <= i2 < i ==> #[trigger] dp.row(i2) == dp_row(runs, i2 as nat),
            forall|i2: int| i <= i2 < 14 ==> #[trigger] dp.row(i2) == empty_row(),
        decreases nruns - i,
    {
        let l = counts[i - 1].0;
        let r = counts[i].0;
        let n = counts[i].1;
        let ghost prev = dp_row(runs, (i - 1) as nat);
        let ghost t0 = dp;
        proof {
            assert(runs[i as int].1 == n as nat);
            assert(n <= 4);
            assert(l.face() == runs[i - 1].0);
            assert(r.face() == runs[i as int].0);
            assert(dp.row(i as int) =~= next_row_upto(prev, l.face(), r.face(), n as nat, 0));
        }
        let mut j: usize = 0;
        while j < 15
            invariant
                dp.wf(),
                1 <= i < nruns,
                nruns <= 14,
                n <= 4,
                j <= 15,
                t0.wf(),
                t0.same_outside(dp, i as int),
                prev == dp_row(runs, (i - 1) as nat),
                t0.row(i - 1) == prev,
                dp.row(i as int) == next_row_upto(prev, l.face(), r.face(), n as nat, j as nat),
            decreases 15 - j,
        {
            let ghost t1 = dp;
            proof {
                SearchDPTable::lemma_same_outside_rows(t0, dp, i as int, i - 1);
            }
            match dp.get(i - 1, j) {
                Some(patt_seq) => {
                    dp.update_i_with_jlrn(patt_seq, i as u8, j as u8, l, r, n, 0);
                    proof { SearchDPTable::lemma_same_outside_trans(t0, t1, dp, i as int); }
                },
                _ => {},
            }
            j += 1;
        }
        proof {
            assert(dp.row(i as int) == dp_row(runs, i as nat));
            assert forall|i2: int| 0 <= i2 < i + 1 implies #[trigger] dp.row(i2) == dp_row(runs, i2 as nat) by {
                if i2 < i {
                    SearchDPTable::lemma_same_outside_rows(t0, dp, i as int, i2);
                }
            }
            assert forall|i2: int| i + 1 <= i2 < 14 implies #[trigger] dp.row(i2) == empty_row() by {
                SearchDPTable::lemma_same_outside_rows(t0, dp, i as int, i2);
            }
        }
        i += 1;
    }
    proof {
        assert(dp.row((nruns - 1) as int) == dp_row(runs, (runs.len() - 1) as nat));
    }
    let res = match dp.get(nruns - 1, 0) {
        Some(final_seq) => collect_reversed(final_seq),
        None => Vec::new(),
    };
    proof {
        if faces_rise(runs) && table_fits(runs) {
            lemma_runs_hand(faces);
            lemma_runs_positive(faces);
            assert forall|p: nat|
                res@.map_values(|q: AgariPattern| q.spec_code() as nat).contains(p) <==> #[trigger] is_split_pattern(
                    runs,
                    p,
                ) by {
                law_search_lists_the_splits(runs, p);
            }
        }
    }
    res
}

/// Whether no face occurs more than four times.
pub open spec fn faces_within_four(faces: Seq<u8>) -> bool {
    forall|f: u8| faces.to_multiset().count(f) <= 4
}

/// The order in which tiles are sorted: by face.
pub open spec fn face_leq(a: u8, b: u8) -> bool {
    a <= b
}

/// The faces in ascending order.
pub open spec fn sorted_faces(faces: Seq<u8>) -> Seq<u8> {
    faces.sort_by(|a: u8, b: u8| face_leq(a, b))
}

pub proof fn lemma_face_leq_total()
    ensures
        vstd::relations::total_ordering(|a: u8, b: u8| face_leq(a, b)),
{
}

/// Mapping preserves equality of multisets.
proof fn lemma_map_multiset<A, B>(s1: Seq<A>, s2: Seq<A>, f: spec_fn(A) -> B)
    requires
        s1.to_multiset() == s2.to_multiset(),
    ensures
        s1.map_values(f).to_multiset() == s2.map_values(f).to_multiset(),
    decreases s1.len(),
{
    broadcast use vstd::seq_lib::group_to_multiset_ensures;

    if s1.len() == 0 {
        assert(s1.to_multiset().len() == 0);
        assert(s2.to_multiset().len() == s2.len());
        assert(s2.len() == 0);
        assert(s1.map_values(f) =~= s2.map_values(f));
    } else {
        let x = s1.last();
        let s1p = s1.drop_last();
        assert(s1 =~= s1p.push(x));
        assert(s2.to_multiset().count(x) > 0);
        assert(s2.contains(x));
        let i = choose|i: int| 0 <= i < s2.len() && s2[i] == x;
        let s2p = s2.remove(i);
        assert(s1p.to_multiset() =~= s2p.to_multiset());
        lemma_map_multiset(s1p, s2p, f);
        assert(s1.map_values(f) =~= s1p.map_values(f).push(f(x)));
        assert(s2p.map_values(f) =~= s2.map_values(f).remove(i));
        assert(s2.map_values(f)[i] == f(x));
        assert(s2.map_values(f).remove(i).to_multiset() =~= s2.map_values(f).to_multiset().remove(f(x)));
        assert(s2.map_values(f).to_multiset().count(f(x)) > 0) by {
            assert(s2.map_values(f).contains(f(x)));
        }
        assert(s1.map_values(f).to_multiset() =~= s2.map_values(f).to_multiset());
    }
}

/// Each run is no longer than the number of times its face occurs.
pub proof fn lemma_runs_le_count(s: Seq<u8>)
    ensures
        forall|k: int|
            0 <= k < run_counts(s).len() ==> (#[trigger] run_counts(s)[k]).1 <= s.to_multiset().count(
                run_counts(s)[k].0,
            ),
    decreases s.len(),
{
    broadcast use vstd::seq_lib::group_to_multiset_ensures;

    if s.len() > 0 {
        let sp = s.drop_last();
        let x = s.last();
        let r = run_counts(sp);
        lemma_runs_le_count(sp);
        assert(s =~= sp.push(x));
        assert(s.to_multiset() =~= sp.to_multiset().insert(x));
        let rs = run_counts(s);
        assert forall|k: int| 0 <= k < rs.len() implies (#[trigger] rs[k]).1 <= s.to_multiset().count(rs[k].0) by {
            if r.len() > 0 && r.last().0 == x {
                if k == r.len() - 1 {
                    assert(rs[k] == (x, r.last().1 + 1));
                } else {
                    assert(rs[k] == r[k]);
                }
            } else {
                if k < r.len() {
                    assert(rs[k] == r[k]);
                } else {
                    assert(rs[k] == (x, 1nat));
                }
            }
        }
    }
}

/// `slice::sort_unstable_by_key` (std), keyed by the tile's face: the vector
/// afterwards holds the same tiles (as a multiset), in order of their faces.
/// The order of tiles with equal faces is left open.
#[verifier::external_body]
fn sort_by_face(v: &mut Vec<MJTile>)
    ensures
        final(v)@.to_multiset() == old(v)@.to_multiset(),
        forall|a: int, b: int| 0 <= a < b < final(v)@.len() ==> final(v)@[a].face() <= final(v)@[b].face(),
{
    v.sort_unstable_by_key(|t| t.face_code());
}

/// The winning-hand patterns of any arrangement of tiles: those of the
/// tiles' faces in sorted order (see `search_pattern_sorted`).
pub fn search_pattern(tiles: &[MJTile]) -> (res: Vec<AgariPattern>)
    requires
        0 < tiles@.len() <= 14,
        faces_within_four(tile_faces(tiles@)),
    ensures
        res@.map_values(|p: AgariPattern| p.spec_code() as nat) == search_result(
            run_counts(sorted_faces(tile_faces(tiles@))),
        ),
        table_fits(run_counts(sorted_faces(tile_faces(tiles@)))) ==> forall|p: nat|
            res@.map_values(|q: AgariPattern| q.spec_code() as nat).contains(p) <==> #[trigger] is_split_pattern(
                run_counts(sorted_faces(tile_faces(tiles@))),
                p,
            ),
{
    let mut sorted: Vec<MJTile> = Vec::new();
    for k in 0..tiles.len()
        invariant
            sorted@ =~= tiles@.take(k as int),
    {
        sorted.push(tiles[k]);
    }
    proof {
        assert(sorted@ =~= tiles@);
    }
    sort_by_face(&mut sorted);
    proof {
        broadcast use vstd::seq_lib::group_to_multiset_ensures;

        let leq = |a: u8, b: u8| face_leq(a, b);
        let faces = tile_faces(tiles@);
        let sfaces = tile_faces(sorted@);
        lemma_face_leq_total();
        faces.lemma_sort_by_ensures(leq);
        lemma_map_multiset(sorted@, tiles@, |t: MJTile| t.face());
        assert(vstd::relations::sorted_by(sfaces, leq));
        vstd::seq_lib::lemma_sorted_unique(sfaces, faces.sort_by(leq), leq);
        assert(sorted@.to_multiset().len() == sorted@.len());
        assert(tiles@.to_multiset().len() == tiles@.len());
        assert(sfaces.len() == sorted@.len());
        lemma_runs_le_count(sfaces);
        assert(runs_within_four(run_counts(sfaces)));
    }
    let res = search_pattern_sorted(sorted.as_slice());
    proof {
        if table_fits(run_counts(sorted_faces(tile_faces(tiles@)))) {
            assert forall|p: nat|
                res@.map_values(|q: AgariPattern| q.spec_code() as nat).contains(p) <==> #[trigger] is_split_pattern(
                    run_counts(sorted_faces(tile_faces(tiles@))),
                    p,
                ) by {
                law_search_pattern_lists_the_splits(tiles@, p);
            }
        }
    }
    res
}

/// The search ignores the order of the tiles and their red marks: two hands
/// with the same faces, counted with multiplicity, get the same patterns.
pub proof fn law_search_ignores_order(t1: Seq<MJTile>, t2: Seq<MJTile>)
    requires
        tile_faces(t1).to_multiset() == tile_faces(t2).to_multiset(),
    ensures
        search_result(run_counts(sorted_faces(tile_faces(t1)))) == search_result(
            run_counts(sorted_faces(tile_faces(t2))),
        ),
{
    let leq = |a: u8, b: u8| face_leq(a, b);
    lemma_face_leq_total();
    tile_faces(t1).lemma_sort_by_ensures(leq);
    tile_faces(t2).lemma_sort_by_ensures(leq);
    vstd::seq_lib::lemma_sorted_unique(tile_faces(t1).sort_by(leq), tile_faces(t2).sort_by(leq), leq);
}

/// On tiles already in order of their faces, `search_pattern` and
/// `search_pattern_sorted` find the same patterns.
pub proof fn law_sorted_search_agrees(tiles: Seq<MJTile>)
    requires
        forall|a: int, b: int| 0 <= a < b < tiles.len() ==> tiles[a].face() <= tiles[b].face(),
    ensures
        search_result(run_counts(sorted_faces(tile_faces(tiles)))) == search_result(run_counts(tile_faces(tiles))),
{
    let leq = |a: u8, b: u8| face_leq(a, b);
    let faces = tile_faces(tiles);
    lemma_face_leq_total();
    faces.lemma_sort_by_ensures(leq);
    assert(vstd::relations::sorted_by(faces, leq));
    vstd::seq_lib::lemma_sorted_unique(faces, faces.sort_by(leq), leq);
}

} // verus!
