use vstd::prelude::*;
use vstd::multiset::Multiset;
use crate::mjcore::mjtile::face_is_prev;
use crate::agari::digits::len4;
use crate::agari::digits::digits4;
use crate::agari::digits::len1024;
use crate::agari::digits::digit1024;
use crate::agari::pattern_search::block_base;
use crate::agari::pattern_search::open_runs;
use crate::agari::pattern_search::Row;
use crate::agari::pattern_search::cell_code;
use crate::agari::pattern_search::row_push;
use crate::agari::pattern_search::at_least;
use crate::agari::pattern_search::push_each;
use crate::agari::pattern_search::push_cat_each;
use crate::agari::pattern_search::push_cat_step;
use crate::agari::pattern_search::push_repeat;
use crate::agari::pattern_search::pushed_times;
use crate::agari::pattern_search::update;
use crate::agari::pattern_search::shuntu_seq;
use crate::agari::pattern_search::next_row_upto;
use crate::agari::pattern_search::empty_row;
use crate::agari::pattern_search::init_row;
use crate::agari::pattern_search::dp_row;
use crate::agari::pattern_search::search_result;
use crate::agari::pattern::back_items;
use crate::agari::pattern_search::run_counts;
use crate::agari::pattern_search::tile_faces;
use crate::agari::pattern_search::faces_within_four;
use crate::agari::pattern_search::face_leq;
use crate::agari::pattern_search::sorted_faces;
use crate::agari::pattern_search::lemma_face_leq_total;
use crate::agari::pattern_search::lemma_runs_le_count;
use crate::mjcore::mjtile::MJTile;
use crate::agari::pattern::reversed_code;
use crate::agari::pattern::lemma_reversed_digits;
use crate::agari::pattern::front_items;
use crate::agari::pattern::take_while_nonzero;
use crate::agari::pattern::pushed_code;
use crate::agari::pattern::code_has_tuitu;
use crate::agari::pattern::comb_code;
use crate::agari::digits::digits1024;
use crate::mjcore::mjcomb::MJCombCategory;
use crate::agari::pattern::seq_pushed_code;
use crate::agari::digits::pow1024;
use crate::agari::digits::lemma_digit1024_step;
use crate::agari::digits::lemma_digits1024_index;
use crate::agari::digits::lemma_len1024_bound;
use crate::agari::digits::lemma_pow1024_pos;
use crate::agari::digits::digit4;
use crate::agari::digits::lemma_digits4_index;
use crate::agari::digits::lemma_digit4_step;

verus! {

broadcast use vstd::multiset::group_multiset_axioms;

/// `k` copies of face `f`.
pub open spec fn copies(f: u8, k: nat) -> Multiset<u8>
    decreases k,
{
    if k == 0 {
        Multiset::empty()
    } else {
        copies(f, (k - 1) as nat).insert(f)
    }
}

/// The tiles of the runs `0..=i`.
pub open spec fn prefix_tiles(runs: Seq<(u8, nat)>, i: nat) -> Multiset<u8>
    decreases i,
{
    if i == 0 {
        copies(runs[0].0, runs[0].1)
    } else {
        prefix_tiles(runs, (i - 1) as nat).add(copies(runs[i as int].0, runs[i as int].1))
    }
}

/// The tiles of all runs.
pub open spec fn hand_tiles(runs: Seq<(u8, nat)>) -> Multiset<u8> {
    prefix_tiles(runs, (runs.len() - 1) as nat)
}

/// The tiles of a combination with category code `e` (1 a run, 2 three of a
/// kind, 3 a pair) whose lowest tile has face `f`.
pub open spec fn comb_tiles(e: nat, f: u8) -> Multiset<u8> {
    if e == 1 {
        Multiset::singleton(f).insert((f + 1) as u8).insert((f + 2) as u8)
    } else if e == 2 {
        Multiset::singleton(f).insert(f).insert(f)
    } else {
        Multiset::singleton(f).insert(f)
    }
}

/// A combination is well formed: its code is 1, 2 or 3, and a run's three
/// faces follow one another in one suit.
pub open spec fn comb_well_formed(e: nat, f: u8) -> bool {
    &&& 1 <= e <= 3
    &&& e == 1 ==> face_is_prev(f, (f + 1) as u8) && face_is_prev((f + 1) as u8, (f + 2) as u8)
}

/// The tiles of the combinations with codes `d` and lowest faces `fs`.
pub open spec fn combs_tiles(d: Seq<nat>, fs: Seq<u8>) -> Multiset<u8>
    decreases d.len(),
{
    if d.len() == 0 {
        Multiset::empty()
    } else {
        comb_tiles(d[0], fs[0]).add(combs_tiles(d.drop_first(), fs.drop_first()))
    }
}

/// The number of pairs among combination codes.
pub open spec fn pair_count(d: Seq<nat>) -> nat
    decreases d.len(),
{
    if d.len() == 0 {
        0
    } else {
        (if d[0] == 3 { 1nat } else { 0nat }) + pair_count(d.drop_first())
    }
}

/// The combinations with codes `d` placed at lowest faces `fs` are well formed
/// and use exactly the tiles `tiles`.
pub open spec fn placed(d: Seq<nat>, fs: Seq<u8>, tiles: Multiset<u8>) -> bool {
    &&& fs.len() == d.len()
    &&& forall|t: int| 0 <= t < d.len() ==> comb_well_formed(#[trigger] d[t], fs[t])
    &&& combs_tiles(d, fs) == tiles
}

/// A pattern code decomposes `tiles`: its combinations, at most one of them a
/// pair, can be placed so that they use exactly those tiles.
pub open spec fn decomposes(p: nat, tiles: Multiset<u8>) -> bool {
    &&& pair_count(digits4(p)) <= 1
    &&& exists|fs: Seq<u8>| placed(digits4(p), fs, tiles)
}

/// The number of open two-tile runs of search state `j`.
pub open spec fn state_lv(j: int) -> int {
    if j < 5 { 0 } else { open_runs(j) }
}

/// The number of single tiles of search state `j`.
pub open spec fn state_q(j: int) -> int {
    j - block_base(state_lv(j))
}

/// The tiles held back at row `i` in `lv` open two-tile runs (the previous
/// run's face and this run's face) and `q` single tiles of this run's face.
pub open spec fn residual(runs: Seq<(u8, nat)>, i: int, lv: nat, q: nat) -> Multiset<u8> {
    copies(runs[i - 1].0, lv).add(copies(runs[i].0, lv)).add(copies(runs[i].0, q))
}

/// Pattern `p` is a well-formed partial result at row `i` whose combinations,
/// together with the tiles `rest`, use exactly the tiles of runs `0..=i`.
pub open spec fn fits_with(runs: Seq<(u8, nat)>, i: int, p: nat, rest: Multiset<u8>) -> bool {
    let d = digits4(p);
    &&& len4(p) <= 5
    &&& forall|t: int| 0 <= t < d.len() ==> 1 <= #[trigger] d[t]
    &&& pair_count(d) <= 1
    &&& exists|fs: Seq<u8>|
        #![trigger combs_tiles(d, fs)]
        {
            &&& fs.len() == d.len()
            &&& forall|t: int| 0 <= t < d.len() ==> comb_well_formed(#[trigger] d[t], fs[t])
            &&& combs_tiles(d, fs).add(rest) == prefix_tiles(runs, i as nat)
        }
}

/// `fits_with`, with the tiles held back by `lv` open runs and `q` singles.
pub open spec fn fits(runs: Seq<(u8, nat)>, i: int, lv: int, q: int, p: nat) -> bool {
    fits_with(runs, i, p, residual(runs, i, lv as nat, q as nat))
}

/// The faces of row `i` allow state `j`: open runs need a previous run whose
/// face comes just before.
pub open spec fn state_allowed(runs: Seq<(u8, nat)>, i: int, j: int) -> bool {
    state_lv(j) > 0 ==> i > 0 && face_is_prev(runs[i - 1].0, runs[i].0)
}

/// A cell of row `i` in state `j` holding sequence code `c` is sound: the
/// state is allowed, and every pattern in its first six slots (the empty
/// pattern, for code 0) fits the state.
pub open spec fn cell_ok(runs: Seq<(u8, nat)>, i: int, j: int, c: nat) -> bool {
    &&& state_allowed(runs, i, j)
    &&& crate::agari::completeness::healthy(c)
    &&& c == 0 ==> fits(runs, i, state_lv(j), state_q(j), 0)
    &&& forall|k: nat|
        k < 6 && k < len1024(c) ==> fits(runs, i, state_lv(j), state_q(j), #[trigger] digit1024(c, k))
}

/// Every reached state of row `i` is sound.
pub open spec fn row_ok(runs: Seq<(u8, nat)>, i: int, row: Row) -> bool {
    &&& row.len() == 15
    &&& forall|j: int| 0 <= j < 15 ==> (#[trigger] row[j] matches Some(c) ==> cell_ok(runs, i, j, c))
}

// ----- multiset facts -----

pub broadcast proof fn lemma_copies_count(f: u8, k: nat, x: u8)
    ensures
        #[trigger] copies(f, k).count(x) == if x == f { k } else { 0 },
    decreases k,
{
    if k > 0 {
        lemma_copies_count(f, (k - 1) as nat, x);
    }
}

pub proof fn lemma_copies_len(f: u8, k: nat)
    ensures
        copies(f, k).len() == k,
    decreases k,
{
    if k > 0 {
        lemma_copies_len(f, (k - 1) as nat);
    }
}

// ----- pushing a combination onto a pattern -----

/// The digits of a pattern code with a combination shifted in at slot 0.
pub(crate) proof fn lemma_digits4_push(p: nat, e: nat)
    requires
        1 <= e <= 3,
    ensures
        digits4(p * 4 + e) == seq![e] + digits4(p),
        len4(p * 4 + e) == len4(p) + 1,
{
    assert((p * 4 + e) % 4 == e);
    assert((p * 4 + e) / 4 == p);
    assert(digits4(p * 4 + e) =~= seq![e] + digits4(p));
    lemma_digits4_index(p * 4 + e, 0);
    lemma_digits4_index(p, 0);
}

/// Adding a well-formed combination, taken out of the held-back tiles, keeps
/// a pattern fitting.
pub(crate) proof fn lemma_fits_push(runs: Seq<(u8, nat)>, i: int, p: nat, e: nat, f: u8, rest: Multiset<u8>)
    requires
        fits_with(runs, i, p, rest.add(comb_tiles(e, f))),
        comb_well_formed(e, f),
        len4(p) < 5,
        e == 3 ==> pair_count(digits4(p)) == 0,
    ensures
        fits_with(runs, i, p * 4 + e, rest),
        p * 4 + e < 1024,
{
    let d = digits4(p);
    lemma_digits4_push(p, e);
    let d2 = digits4(p * 4 + e);
    assert(d2.drop_first() =~= d);
    let fs = choose|fs: Seq<u8>|
        {
            &&& fs.len() == d.len()
            &&& forall|t: int| 0 <= t < d.len() ==> comb_well_formed(#[trigger] d[t], fs[t])
            &&& combs_tiles(d, fs).add(rest.add(comb_tiles(e, f))) == prefix_tiles(runs, i as nat)
        };
    let fs2 = seq![f] + fs;
    assert(fs2.drop_first() =~= fs);
    assert(combs_tiles(d2, fs2) == comb_tiles(e, f).add(combs_tiles(d, fs)));
    assert(combs_tiles(d2, fs2).add(rest) =~= combs_tiles(d, fs).add(rest.add(comb_tiles(e, f))));
    assert forall|t: int| 0 <= t < d2.len() implies comb_well_formed(#[trigger] d2[t], fs2[t]) by {
        if t > 0 {
            assert(d2[t] == d[t - 1]);
            assert(fs2[t] == fs[t - 1]);
        }
    }
    assert(pair_count(d2) == (if e == 3 { 1nat } else { 0nat }) + pair_count(d));
    crate::agari::digits::lemma_len4_bound(p * 4 + e, 5);
    assert(crate::agari::digits::pow4(5) == 1024) by {
        reveal_with_fuel(crate::agari::digits::pow4, 6);
    }
}

/// A pattern fitting row `i - 1` fits row `i` with the new run held back too.
pub(crate) proof fn lemma_fits_grow(runs: Seq<(u8, nat)>, i: int, p: nat, rest: Multiset<u8>)
    requires
        i >= 1,
        fits_with(runs, i - 1, p, rest),
    ensures
        fits_with(runs, i, p, rest.add(copies(runs[i].0, runs[i].1))),
{
    let d = digits4(p);
    let fs = choose|fs: Seq<u8>|
        {
            &&& fs.len() == d.len()
            &&& forall|t: int| 0 <= t < d.len() ==> comb_well_formed(#[trigger] d[t], fs[t])
            &&& combs_tiles(d, fs).add(rest) == prefix_tiles(runs, (i - 1) as nat)
        };
    assert(prefix_tiles(runs, i as nat) == prefix_tiles(runs, (i - 1) as nat).add(copies(runs[i].0, runs[i].1)));
    assert(combs_tiles(d, fs).add(rest.add(copies(runs[i].0, runs[i].1))) =~= prefix_tiles(runs, (i - 1) as nat).add(
        copies(runs[i].0, runs[i].1),
    ));
}

/// Equal held-back tiles keep a pattern fitting.
pub(crate) proof fn lemma_fits_same(runs: Seq<(u8, nat)>, i: int, p: nat, r1: Multiset<u8>, r2: Multiset<u8>)
    requires
        fits_with(runs, i, p, r1),
        r1 =~= r2,
    ensures
        fits_with(runs, i, p, r2),
{
}

// ----- slots of sequence codes -----

pub(crate) proof fn lemma_digit_mod_split(c: nat, pw: nat, k: nat)
    requires
        pw > 0,
        k * pw == 0x40_0000_0000_0000,
        k % 1024 == 0,
    ensures
        ((c % 0x40_0000_0000_0000nat) / pw) % 1024 == (c / pw) % 1024,
{
    let m: nat = c % 0x40_0000_0000_0000nat;
    let q: nat = c / 0x40_0000_0000_0000nat;
    assert(c == q * 0x40_0000_0000_0000nat + m);
    assert(c == (q * k) * pw + m) by (nonlinear_arith)
        requires
            c == q * 0x40_0000_0000_0000nat + m,
            k * pw == 0x40_0000_0000_0000nat,
    ;
    vstd::arithmetic::div_mod::lemma_fundamental_div_mod(m as int, pw as int);
    assert(m % pw < pw) by {
        vstd::arithmetic::div_mod::lemma_mod_pos_bound(m as int, pw as int);
    }
    assert(c == (q * k + m / pw) * pw + m % pw) by (nonlinear_arith)
        requires
            c == (q * k) * pw + m,
            m == pw * (m / pw) + m % pw,
    ;
    vstd::arithmetic::div_mod::lemma_fundamental_div_mod_converse(
        c as int,
        pw as int,
        (q * k + m / pw) as int,
        (m % pw) as int,
    );
    let kk: nat = k / 1024;
    assert(q * k == 1024 * (q * kk)) by (nonlinear_arith)
        requires
            k == 1024 * kk,
    ;
    vstd::arithmetic::div_mod::lemma_mod_multiples_vanish((q * kk) as int, (m / pw) as int, 1024);
}

/// Truncating a sequence code to 54 bits keeps its slots 0 to 4.
pub(crate) proof fn lemma_digit_mod54(c: nat, t: nat)
    requires
        t < 5,
    ensures
        digit1024(c % 0x40_0000_0000_0000nat, t) == digit1024(c, t),
{
    reveal_with_fuel(pow1024, 6);
    if t == 0 {
        lemma_digit_mod_split(c, 1, 0x40_0000_0000_0000nat);
    } else if t == 1 {
        lemma_digit_mod_split(c, 1024, 0x1000_0000_0000nat);
    } else if t == 2 {
        lemma_digit_mod_split(c, 1024 * 1024, 0x4_0000_0000nat);
    } else if t == 3 {
        lemma_digit_mod_split(c, 1024 * 1024 * 1024, 0x100_0000nat);
    } else {
        lemma_digit_mod_split(c, 1024 * 1024 * 1024 * 1024, 0x4000nat);
    }
}

/// Pushing a pattern onto a cell keeps it sound.
pub(crate) proof fn lemma_cell_push(runs: Seq<(u8, nat)>, i: int, j: int, c: nat, p: nat)
    requires
        cell_ok(runs, i, j, c),
        fits(runs, i, state_lv(j), state_q(j), p),
        p < 1024,
    ensures
        cell_ok(runs, i, j, seq_pushed_code(c, p)),
{
    let m: nat = c % 0x40_0000_0000_0000nat;
    let c2 = seq_pushed_code(c, p);
    assert(c2 == m * 1024 + p);
    assert(c2 / 1024 == m);
    assert(c2 % 1024 == p);
    lemma_digit1024_step(c2, 0);
    crate::agari::completeness::lemma_cell_push_healthy(runs, i, j, c, p);
    assert forall|k: nat| k < 6 && k < len1024(c2) implies fits(
        runs,
        i,
        state_lv(j),
        state_q(j),
        #[trigger] digit1024(c2, k),
    ) by {
        if k > 0 {
            lemma_digit1024_step(c2, (k - 1) as nat);
            lemma_digit_mod54(c, (k - 1) as nat);
            assert(digit1024(c2, k) == digit1024(c, (k - 1) as nat));
            assert(m <= c);
            assert(len1024(c2) == 1 + len1024(m));
            lemma_len_mono(m, c);
        }
    }
}

pub(crate) proof fn lemma_len_mono(a: nat, b: nat)
    requires
        a <= b,
    ensures
        len1024(a) <= len1024(b),
    decreases b,
{
    if a > 0 {
        lemma_len_mono(a / 1024, b / 1024);
    }
}

/// Pushing a fitting pattern onto state `j` of a sound row keeps it sound.
pub(crate) proof fn lemma_row_push(runs: Seq<(u8, nat)>, i: int, row: Row, j: int, p: nat)
    requires
        row_ok(runs, i, row),
        0 <= j < 15,
        state_allowed(runs, i, j),
        fits(runs, i, state_lv(j), state_q(j), p),
        p < 1024,
    ensures
        row_ok(runs, i, row_push(row, j, p)),
{
    let c = cell_code(row, j);
    if row[j] is None {
        assert(seq_pushed_code(0, p) == p);
        lemma_digit1024_step(p, 0);
        assert forall|k: nat| k < 6 && k < len1024(p) implies fits(
            runs,
            i,
            state_lv(j),
            state_q(j),
            #[trigger] digit1024(p, k),
        ) by {
            if k > 0 {
                assert(pow1024(1) == 1024) by {
                    reveal_with_fuel(pow1024, 2);
                }
                lemma_len1024_bound(p, 1);
            }
        }
        crate::agari::completeness::lemma_overflow_len(p);
        assert(cell_ok(runs, i, j, p));
    } else {
        lemma_cell_push(runs, i, j, c, p);
    }
    let row2 = row_push(row, j, p);
    assert forall|j2: int| 0 <= j2 < 15 implies (#[trigger] row2[j2] matches Some(c2) ==> cell_ok(runs, i, j2, c2)) by {
        if j2 != j {
            assert(row2[j2] == row[j2]);
        }
    }
}

// ----- the patterns a cell passes on -----

pub(crate) proof fn lemma_take_while_entries(s: Seq<nat>)
    ensures
        take_while_nonzero(s).len() <= s.len(),
        forall|t: int| 0 <= t < take_while_nonzero(s).len() ==> #[trigger] take_while_nonzero(s)[t] == s[t],
        s.len() > 0 && take_while_nonzero(s).len() == 0 ==> s[0] == 0,
    decreases s.len(),
{
    if s.len() > 0 && s[0] != 0 {
        lemma_take_while_entries(s.drop_first());
        let w = take_while_nonzero(s);
        assert forall|t: int| 0 <= t < w.len() implies #[trigger] w[t] == s[t] by {
            if t > 0 {
                assert(w[t] == take_while_nonzero(s.drop_first())[t - 1]);
            }
        }
    }
}

/// The patterns that a sound cell of at most six slots passes on fit its
/// state; there are at most six of them.
pub(crate) proof fn lemma_items_fit(runs: Seq<(u8, nat)>, i: int, j: int, c: nat)
    requires
        cell_ok(runs, i, j, c),
        len1024(c) <= 6,
    ensures
        at_least(c).len() <= 6,
        forall|t: int|
            0 <= t < at_least(c).len() ==> fits(runs, i, state_lv(j), state_q(j), #[trigger] at_least(c)[t])
                && at_least(c)[t] < 1024,
{
    let d = digits1024(c);
    lemma_take_while_entries(d);
    lemma_digits1024_index(c, 0);
    if front_items(c).len() == 0 {
        if c != 0 {
            lemma_digit1024_step(c, 0);
            assert(d[0] == digit1024(c, 0));
            assert(digit1024(c, 0) == 0);
        }
    } else {
        assert forall|t: int| 0 <= t < at_least(c).len() implies fits(
            runs,
            i,
            state_lv(j),
            state_q(j),
            #[trigger] at_least(c)[t],
        ) && at_least(c)[t] < 1024 by {
            lemma_digits1024_index(c, t as nat);
            assert(at_least(c)[t] == digit1024(c, t as nat));
        }
    }
}

// ----- folds of pushes -----

pub(crate) proof fn lemma_push_each(runs: Seq<(u8, nat)>, i: int, row: Row, j: int, ps: Seq<nat>)
    requires
        row_ok(runs, i, row),
        0 <= j < 15,
        state_allowed(runs, i, j),
        forall|t: int| 0 <= t < ps.len() ==> fits(runs, i, state_lv(j), state_q(j), #[trigger] ps[t]) && ps[t] < 1024,
    ensures
        row_ok(runs, i, push_each(row, j, ps)),
    decreases ps.len(),
{
    if ps.len() > 0 {
        let pl = ps.drop_last();
        assert forall|t: int| 0 <= t < pl.len() implies fits(runs, i, state_lv(j), state_q(j), #[trigger] pl[t]) && pl[t]
            < 1024 by {
            assert(pl[t] == ps[t]);
        }
        lemma_push_each(runs, i, row, j, pl);
        lemma_row_push(runs, i, push_each(row, j, pl), j, ps.last());
    }
}

pub(crate) proof fn lemma_pair_count_zero(d: Seq<nat>)
    requires
        forall|t: int| 0 <= t < d.len() ==> #[trigger] d[t] != 3,
    ensures
        pair_count(d) == 0,
    decreases d.len(),
{
    if d.len() > 0 {
        assert forall|t: int| 0 <= t < d.drop_first().len() implies #[trigger] d.drop_first()[t] != 3 by {
            assert(d.drop_first()[t] == d[t + 1]);
        }
        lemma_pair_count_zero(d.drop_first());
    }
}

/// A code with no pair in its (at most five) slots holds no pair.
pub(crate) proof fn lemma_no_tuitu(p: nat)
    requires
        !code_has_tuitu(p),
        len4(p) <= 5,
    ensures
        pair_count(digits4(p)) == 0,
{
    let d = digits4(p);
    assert forall|t: int| 0 <= t < d.len() implies #[trigger] d[t] != 3 by {
        lemma_digits4_index(p, t as nat);
    }
    lemma_pair_count_zero(d);
}

/// The held-back tiles of a block with `m` singles equal those with `m - k`
/// singles and `k` more copies of the run's face.
pub(crate) proof fn lemma_residual_split(runs: Seq<(u8, nat)>, i: int, lv: nat, m: nat, k: nat)
    requires
        k <= m,
    ensures
        residual(runs, i, lv, m) =~= residual(runs, i, lv, (m - k) as nat).add(copies(runs[i].0, k)),
{
    broadcast use lemma_copies_count;

}

pub(crate) proof fn lemma_comb_tiles_copies(f: u8)
    ensures
        comb_tiles(3, f) =~= copies(f, 2),
        comb_tiles(2, f) =~= copies(f, 3),
{
    broadcast use lemma_copies_count;

}

/// Extending each passed-on pattern by a pair (where it has none and fewer
/// than five combinations) or by three of a kind (where it has fewer than
/// five) into the matching state keeps a row sound.
pub(crate) proof fn lemma_push_cat_each(
    runs: Seq<(u8, nat)>,
    i: int,
    row: Row,
    ps: Seq<nat>,
    cate: MJCombCategory,
    lv: nat,
    m: nat,
    j: int,
)
    requires
        row_ok(runs, i, row),
        cate == MJCombCategory::Tuitu || cate == MJCombCategory::Koutu,
        m >= (if cate == MJCombCategory::Tuitu { 2nat } else { 3nat }),
        0 <= j < 15,
        state_lv(j) == lv,
        state_q(j) == m - (if cate == MJCombCategory::Tuitu { 2nat } else { 3nat }),
        state_allowed(runs, i, j),
        forall|t: int| 0 <= t < ps.len() ==> fits(runs, i, lv as int, m as int, #[trigger] ps[t]) && ps[t] < 1024,
    ensures
        row_ok(runs, i, push_cat_each(row, j, ps, cate, 1)),
    decreases ps.len(),
{
    if ps.len() > 0 {
        let pl = ps.drop_last();
        assert forall|t: int| 0 <= t < pl.len() implies fits(runs, i, lv as int, m as int, #[trigger] pl[t]) && pl[t]
            < 1024 by {
            assert(pl[t] == ps[t]);
        }
        lemma_push_cat_each(runs, i, row, pl, cate, lv, m, j);
        let row1 = push_cat_each(row, j, pl, cate, 1);
        let p = ps.last();
        let r = runs[i].0;
        let size: nat = if cate == MJCombCategory::Tuitu { 2 } else { 3 };
        let e = comb_code(cate);
        lemma_residual_split(runs, i, lv, m, size);
        lemma_comb_tiles_copies(r);
        assert(residual(runs, i, lv, m) =~= residual(runs, i, lv, (m - size) as nat).add(comb_tiles(e, r)));
        if cate == MJCombCategory::Tuitu {
            if !code_has_tuitu(p) && len4(p) < 5 {
                lemma_no_tuitu(p);
                lemma_fits_push(runs, i, p, e, r, residual(runs, i, lv, (m - size) as nat));
                assert(pushed_code(p, cate) == p * 4 + e);
                lemma_row_push(runs, i, row1, j, p * 4 + e);
            }
        } else {
            if len4(p) + 1 <= 5 {
                lemma_fits_push(runs, i, p, e, r, residual(runs, i, lv, (m - size) as nat));
                assert(pushed_times(p, cate, 1) == pushed_code(p, cate)) by {
                    assert(pushed_times(p, cate, 0) == p);
                }
                assert(pushed_code(p, cate) == p * 4 + e);
                assert(push_repeat(row1, j, p, cate, 1) == row_push(row1, j, p * 4 + e)) by {
                    assert(push_repeat(row1, j, p, cate, 0) == row1);
                }
                lemma_row_push(runs, i, row1, j, p * 4 + e);
            }
        }
    }
}

// ----- the state-0 step of the search -----

/// Continuing passed-on patterns that hold back `lv` open runs and `m`
/// copies of the new run's face keeps a row sound.
pub(crate) proof fn lemma_update_zero(runs: Seq<(u8, nat)>, i: int, row: Row, c: nat, l: u8, r: u8, m: int, lv: int)
    requires
        0 <= i < runs.len(),
        row_ok(runs, i, row),
        r == runs[i].0,
        0 <= lv,
        0 <= m,
        lv + m <= 4,
        lv > 0 ==> i > 0 && face_is_prev(runs[i - 1].0, r),
        forall|t: int| 0 <= t < at_least(c).len() ==> fits(runs, i, lv, m, #[trigger] at_least(c)[t]) && at_least(c)[t] < 1024,
    ensures
        row_ok(runs, i, update(row, c, 0, l, r, m, lv)),
{
    let b = block_base(lv);
    let ps = at_least(c);
    assert(state_lv(b + m) == lv && state_q(b + m) == m);
    assert(state_allowed(runs, i, b + m));
    lemma_push_each(runs, i, row, b + m, ps);
    let row1 = push_each(row, b + m, ps);
    assert forall|t: int| 0 <= t < ps.len() implies fits(runs, i, lv, m, #[trigger] ps[t]) && ps[t] < 1024 by {
    }
    if m == 2 {
        assert(state_lv(b) == lv && state_q(b) == 0);
        lemma_push_cat_each(runs, i, row1, ps, MJCombCategory::Tuitu, lv as nat, m as nat, b);
    } else if m == 3 {
        assert(state_lv(b + 1) == lv && state_q(b + 1) == 1);
        assert(state_lv(b) == lv && state_q(b) == 0);
        lemma_push_cat_each(runs, i, row1, ps, MJCombCategory::Tuitu, lv as nat, m as nat, b + 1);
        let row2 = push_cat_each(row1, b + 1, ps, MJCombCategory::Tuitu, 1);
        lemma_push_cat_each(runs, i, row2, ps, MJCombCategory::Koutu, lv as nat, m as nat, b);
    } else if m == 4 {
        assert(state_lv(b + 2) == lv && state_q(b + 2) == 2);
        assert(state_lv(b + 1) == lv && state_q(b + 1) == 1);
        lemma_push_cat_each(runs, i, row1, ps, MJCombCategory::Tuitu, lv as nat, m as nat, b + 2);
        let row2 = push_cat_each(row1, b + 2, ps, MJCombCategory::Tuitu, 1);
        lemma_push_cat_each(runs, i, row2, ps, MJCombCategory::Koutu, lv as nat, m as nat, b + 1);
    }
}

// ----- completing runs -----

pub(crate) proof fn lemma_pushed_times_run(p: nat, lv: nat)
    requires
        len4(p) + lv <= 5,
    ensures
        pushed_times(p, MJCombCategory::Shuntu, lv) < 1024,
        lv >= 1 ==> pushed_times(p, MJCombCategory::Shuntu, lv) >= 1,
        len4(pushed_times(p, MJCombCategory::Shuntu, lv)) == len4(p) + lv,
        digits4(pushed_times(p, MJCombCategory::Shuntu, lv)) == Seq::new(lv, |t: int| 1nat) + digits4(p),
    decreases lv,
{
    crate::agari::digits::lemma_len4_bound(p, 5);
    assert(crate::agari::digits::pow4(5) == 1024) by {
        reveal_with_fuel(crate::agari::digits::pow4, 6);
    }
    if lv > 0 {
        let q = pushed_times(p, MJCombCategory::Shuntu, (lv - 1) as nat);
        lemma_pushed_times_run(p, (lv - 1) as nat);
        assert(pushed_code(q, MJCombCategory::Shuntu) == q * 4 + 1);
        lemma_digits4_push(q, 1);
        crate::agari::digits::lemma_len4_bound(q * 4 + 1, 5);
        assert(digits4(q * 4 + 1) =~= Seq::new(lv, |t: int| 1nat) + digits4(p));
    }
}

/// A sequence built by pushing patterns one after another from empty, with
/// at most six of them, holds them all: its length is their number and slot
/// `s` holds the pattern pushed `s` pushes from the end.
pub(crate) proof fn lemma_shuntu_slots(ps: Seq<nat>, lv: nat)
    requires
        1 <= lv <= 4,
        ps.len() <= 6,
        forall|t: int| 0 <= t < ps.len() ==> len4(#[trigger] ps[t]) + lv <= 5,
    ensures
        len1024(shuntu_seq(ps, lv)) == ps.len(),
        forall|s: nat|
            s < ps.len() ==> #[trigger] digit1024(shuntu_seq(ps, lv), s) == pushed_times(
                ps[ps.len() - 1 - s],
                MJCombCategory::Shuntu,
                lv,
            ),
    decreases ps.len(),
{
    if ps.len() > 0 {
        let pl = ps.drop_last();
        assert forall|t: int| 0 <= t < pl.len() implies len4(#[trigger] pl[t]) + lv <= 5 by {
            assert(pl[t] == ps[t]);
        }
        lemma_shuntu_slots(pl, lv);
        let c0 = shuntu_seq(pl, lv);
        let q = pushed_times(ps.last(), MJCombCategory::Shuntu, lv);
        lemma_pushed_times_run(ps.last(), lv);
        assert(pow1024(5) == 0x4_0000_0000_0000nat) by {
            reveal_with_fuel(pow1024, 6);
        }
        lemma_len1024_bound(c0, 5);
        let c = shuntu_seq(ps, lv);
        assert(c == seq_pushed_code(c0, q));
        assert(c == c0 * 1024 + q);
        assert(c / 1024 == c0);
        assert(c % 1024 == q);
        assert(c != 0);
        assert(len1024(c) == 1 + len1024(c0));
        assert forall|s: nat| s < ps.len() implies #[trigger] digit1024(c, s) == pushed_times(
            ps[ps.len() - 1 - s],
            MJCombCategory::Shuntu,
            lv,
        ) by {
            lemma_digit1024_step(c, 0);
            if s > 0 {
                lemma_digit1024_step(c, (s - 1) as nat);
                assert(pl[pl.len() - 1 - (s - 1)] == ps[ps.len() - 1 - s]);
            }
        }
    }
}

/// The patterns passed on by the sequence of completed runs are the passed-on
/// patterns with the runs added.
pub(crate) proof fn lemma_shuntu_items(ps: Seq<nat>, lv: nat)
    requires
        1 <= lv <= 4,
        1 <= ps.len() <= 6,
        forall|t: int| 0 <= t < ps.len() ==> len4(#[trigger] ps[t]) + lv <= 5,
    ensures
        at_least(shuntu_seq(ps, lv)).len() == ps.len(),
        forall|t: int|
            0 <= t < ps.len() ==> #[trigger] at_least(shuntu_seq(ps, lv))[t] == pushed_times(
                ps[ps.len() - 1 - t],
                MJCombCategory::Shuntu,
                lv,
            ),
{
    let c = shuntu_seq(ps, lv);
    lemma_shuntu_slots(ps, lv);
    let d = digits1024(c);
    lemma_digits1024_index(c, 0);
    assert forall|t: int| 0 <= t < d.len() implies #[trigger] d[t] == pushed_times(
        ps[ps.len() - 1 - t],
        MJCombCategory::Shuntu,
        lv,
    ) && d[t] != 0 by {
        lemma_digits1024_index(c, t as nat);
        lemma_pushed_times_run(ps[ps.len() - 1 - t], lv);
    }
    lemma_take_while_all(d);
}

pub(crate) proof fn lemma_take_while_all(d: Seq<nat>)
    requires
        forall|t: int| 0 <= t < d.len() ==> #[trigger] d[t] != 0,
    ensures
        take_while_nonzero(d) == d,
    decreases d.len(),
{
    if d.len() > 0 {
        assert forall|t: int| 0 <= t < d.drop_first().len() implies #[trigger] d.drop_first()[t] != 0 by {
            assert(d.drop_first()[t] == d[t + 1]);
        }
        lemma_take_while_all(d.drop_first());
        assert(d =~= seq![d[0]] + d.drop_first());
    }
}

// ----- sizes -----

/// The number of tiles of runs `0..=i`.
pub open spec fn prefix_count(runs: Seq<(u8, nat)>, i: nat) -> nat
    decreases i,
{
    if i == 0 {
        runs[0].1
    } else {
        prefix_count(runs, (i - 1) as nat) + runs[i as int].1
    }
}

pub(crate) proof fn lemma_prefix_len(runs: Seq<(u8, nat)>, i: nat)
    ensures
        prefix_tiles(runs, i).len() == prefix_count(runs, i),
    decreases i,
{
    lemma_copies_len(runs[i as int].0, runs[i as int].1);
    if i > 0 {
        lemma_prefix_len(runs, (i - 1) as nat);
    }
}

pub(crate) proof fn lemma_prefix_count_mono(runs: Seq<(u8, nat)>, i: nat, k: nat)
    requires
        i <= k,
    ensures
        prefix_count(runs, i) <= prefix_count(runs, k),
    decreases k,
{
    if i < k {
        lemma_prefix_count_mono(runs, i, (k - 1) as nat);
    }
}

pub(crate) proof fn lemma_combs_len(d: Seq<nat>, fs: Seq<u8>)
    requires
        fs.len() == d.len(),
        forall|t: int| 0 <= t < d.len() ==> 1 <= #[trigger] d[t] <= 3,
    ensures
        combs_tiles(d, fs).len() + pair_count(d) == 3 * d.len(),
    decreases d.len(),
{
    if d.len() > 0 {
        assert forall|t: int| 0 <= t < d.drop_first().len() implies 1 <= #[trigger] d.drop_first()[t] <= 3 by {
            assert(d.drop_first()[t] == d[t + 1]);
        }
        lemma_combs_len(d.drop_first(), fs.drop_first());
        assert(d[0] == 1 || d[0] == 2 || d[0] == 3);
    }
}

/// A fitting pattern's combinations use at least three tiles each but for one pair.
pub(crate) proof fn lemma_fits_len(runs: Seq<(u8, nat)>, i: int, p: nat, rest: Multiset<u8>)
    requires
        fits_with(runs, i, p, rest),
    ensures
        3 * len4(p) + rest.len() <= prefix_tiles(runs, i as nat).len() + 1,
{
    let d = digits4(p);
    let fs = choose|fs: Seq<u8>|
        {
            &&& fs.len() == d.len()
            &&& forall|t: int| 0 <= t < d.len() ==> comb_well_formed(#[trigger] d[t], fs[t])
            &&& combs_tiles(d, fs).add(rest) == prefix_tiles(runs, i as nat)
        };
    assert forall|t: int| 0 <= t < d.len() implies 1 <= #[trigger] d[t] <= 3 by {
        assert(comb_well_formed(d[t], fs[t]));
    }
    lemma_combs_len(d, fs);
    lemma_digits4_index(p, 0);
}

pub(crate) proof fn lemma_residual_len(runs: Seq<(u8, nat)>, i: int, lv: nat, q: nat)
    ensures
        residual(runs, i, lv, q).len() == 2 * lv + q,
{
    lemma_copies_len(runs[i - 1].0, lv);
    lemma_copies_len(runs[i].0, lv);
    lemma_copies_len(runs[i].0, q);
}

// ----- completing runs keeps patterns fitting -----

/// The tiles of `k` runs starting at face `f`.
pub open spec fn run_tiles(f: u8, k: nat) -> Multiset<u8> {
    copies(f, k).add(copies((f + 1) as u8, k)).add(copies((f + 2) as u8, k))
}

pub(crate) proof fn lemma_face_is_prev_succ(a: u8, b: u8)
    requires
        face_is_prev(a, b),
    ensures
        b == a + 1,
{
}

pub(crate) proof fn lemma_fits_push_runs(runs: Seq<(u8, nat)>, i: int, p: nat, k: nat, f: u8, rest: Multiset<u8>)
    requires
        fits_with(runs, i, p, rest.add(run_tiles(f, k))),
        comb_well_formed(1, f),
        len4(p) + k <= 5,
    ensures
        fits_with(runs, i, pushed_times(p, MJCombCategory::Shuntu, k), rest),
    decreases k,
{
    broadcast use lemma_copies_count;

    if k == 0 {
        assert(rest.add(run_tiles(f, 0)) =~= rest);
    } else {
        let rest1 = rest.add(comb_tiles(1, f));
        assert(rest.add(run_tiles(f, k)) =~= rest1.add(run_tiles(f, (k - 1) as nat)));
        lemma_fits_push_runs(runs, i, p, (k - 1) as nat, f, rest1);
        let q = pushed_times(p, MJCombCategory::Shuntu, (k - 1) as nat);
        lemma_pushed_times_run(p, (k - 1) as nat);
        lemma_fits_push(runs, i, q, 1, f, rest);
        assert(pushed_code(q, MJCombCategory::Shuntu) == q * 4 + 1);
    }
}

// ----- one source state of the previous row -----

/// The sequence whose patterns state `j` of the previous row hands to the
/// state-0 step: its own, or, for a state with open runs, its patterns with
/// those runs completed.
pub open spec fn carried_code(c: nat, j: int) -> nat {
    if j < 5 {
        c
    } else {
        shuntu_seq(at_least(c), open_runs(j) as nat)
    }
}

/// The new run (faces `l` then `r`, `n` copies) lets state `j` go on: state 0
/// always does; another needs the faces to follow one another and enough
/// copies for its singles and open runs.
pub open spec fn carries(l: u8, r: u8, n: int, j: int) -> bool {
    j == 0 || (n >= state_q(j) + state_lv(j) && face_is_prev(l, r))
}

/// A step from state `j` is the state-0 step on the carried sequence, with
/// the state's singles turned into open runs, or nothing at all.
pub(crate) proof fn lemma_update_unfold(row: Row, c: nat, j: int, l: u8, r: u8, n: int)
    requires
        0 <= j <= 14,
    ensures
        update(row, c, j, l, r, n, 0) == if carries(l, r, n, j) {
            update(row, carried_code(c, j), 0, l, r, n - state_q(j) - state_lv(j), state_q(j))
        } else {
            row
        },
{
}

/// The patterns that a sound state of row `i - 1` (of at most six slots)
/// carries into row `i` fit the state-0 step there.
pub(crate) proof fn lemma_carried_fit(runs: Seq<(u8, nat)>, i: int, c: nat, j: int)
    requires
        1 <= i < runs.len(),
        0 <= j <= 14,
        cell_ok(runs, i - 1, j, c),
        len1024(c) <= 6,
        runs[i].1 <= 4,
        prefix_count(runs, i as nat) <= 14,
        carries(runs[i - 1].0, runs[i].0, runs[i].1 as int, j),
    ensures
        ({
            let m = runs[i].1 - state_q(j) - state_lv(j);
            let ps = at_least(carried_code(c, j));
            &&& 0 <= m
            &&& state_q(j) + m <= 4
            &&& state_q(j) > 0 ==> face_is_prev(runs[i - 1].0, runs[i].0)
            &&& ps.len() >= 1
            &&& forall|t: int|
                0 <= t < ps.len() ==> fits(runs, i, state_q(j), m, #[trigger] ps[t]) && ps[t] < 1024
        }),
{
    broadcast use lemma_copies_count;

    let l = runs[i - 1].0;
    let r = runs[i].0;
    let n = runs[i].1;
    let ps = at_least(c);
    lemma_items_fit(runs, i - 1, j, c);
    lemma_prefix_len(runs, i as nat);
    lemma_prefix_len(runs, (i - 1) as nat);
    if j <= 4 {
        assert(state_lv(j) == 0 && state_q(j) == j);
        assert forall|t: int| 0 <= t < ps.len() implies fits(runs, i, j, n - j, #[trigger] ps[t]) && ps[t] < 1024 by {
            lemma_fits_grow(runs, i, ps[t], residual(runs, i - 1, 0, j as nat));
            lemma_fits_same(
                runs,
                i,
                ps[t],
                residual(runs, i - 1, 0, j as nat).add(copies(r, n)),
                residual(runs, i, j as nat, (n - j) as nat),
            );
        }
    } else {
        let lv_ = open_runs(j);
        let lq = j - block_base(lv_);
        assert(state_lv(j) == lv_ && state_q(j) == lq);
        let lp = runs[i - 2].0;
        assert(face_is_prev(lp, l));
        lemma_face_is_prev_succ(lp, l);
        lemma_face_is_prev_succ(l, r);
        assert(comb_well_formed(1, lp));
        assert(ps.len() >= 1);
        assert forall|t: int| 0 <= t < ps.len() implies len4(#[trigger] ps[t]) + lv_ <= 5 by {
            lemma_fits_len(runs, i - 1, ps[t], residual(runs, i - 1, lv_ as nat, lq as nat));
            lemma_residual_len(runs, i - 1, lv_ as nat, lq as nat);
        }
        lemma_shuntu_items(ps, lv_ as nat);
        let c2 = shuntu_seq(ps, lv_ as nat);
        let ps2 = at_least(c2);
        assert forall|t: int| 0 <= t < ps2.len() implies fits(runs, i, lq, n - lq - lv_, #[trigger] ps2[t]) && ps2[t]
            < 1024 by {
            let u = ps.len() - 1 - t;
            let p = ps[u];
            assert(ps2[t] == pushed_times(p, MJCombCategory::Shuntu, lv_ as nat));
            lemma_pushed_times_run(p, lv_ as nat);
            let rest_t = residual(runs, i, lq as nat, (n - lq - lv_) as nat);
            lemma_fits_grow(runs, i, p, residual(runs, i - 1, lv_ as nat, lq as nat));
            lemma_fits_same(
                runs,
                i,
                p,
                residual(runs, i - 1, lv_ as nat, lq as nat).add(copies(r, n)),
                rest_t.add(run_tiles(lp, lv_ as nat)),
            );
            lemma_fits_push_runs(runs, i, p, lv_ as nat, lp, rest_t);
        }
    }
}

/// Continuing one sound state of row `i - 1` (of at most six slots) into row
/// `i` keeps row `i` sound.
pub(crate) proof fn lemma_update(runs: Seq<(u8, nat)>, i: int, row: Row, c: nat, j: int)
    requires
        1 <= i < runs.len(),
        row_ok(runs, i, row),
        0 <= j <= 14,
        cell_ok(runs, i - 1, j, c),
        len1024(c) <= 6,
        runs[i].1 <= 4,
        prefix_count(runs, i as nat) <= 14,
    ensures
        row_ok(runs, i, update(row, c, j, runs[i - 1].0, runs[i].0, runs[i].1 as int, 0)),
{
    let l = runs[i - 1].0;
    let r = runs[i].0;
    let n = runs[i].1 as int;
    lemma_update_unfold(row, c, j, l, r, n);
    if carries(l, r, n, j) {
        lemma_carried_fit(runs, i, c, j);
        lemma_update_zero(runs, i, row, carried_code(c, j), l, r, n - state_q(j) - state_lv(j), state_q(j));
    }
}

// ----- whole rows -----

/// Every reached state of every row holds at most six patterns: no sequence
/// of the search overflows.
pub open spec fn table_fits(runs: Seq<(u8, nat)>) -> bool {
    forall|i: nat, j: int|
        i < runs.len() && 0 <= j < 15 ==> (#[trigger] dp_row(runs, i)[j] matches Some(c) ==> len1024(c) <= 6)
}

pub(crate) proof fn lemma_next_row(runs: Seq<(u8, nat)>, i: int, prev: Row, k: nat)
    requires
        1 <= i < runs.len(),
        row_ok(runs, i - 1, prev),
        forall|j: int| 0 <= j < 15 ==> (#[trigger] prev[j] matches Some(c) ==> len1024(c) <= 6),
        runs[i].1 <= 4,
        prefix_count(runs, i as nat) <= 14,
        k <= 15,
    ensures
        row_ok(runs, i, next_row_upto(prev, runs[i - 1].0, runs[i].0, runs[i].1, k)),
    decreases k,
{
    if k == 0 {
        assert(row_ok(runs, i, empty_row()));
    } else {
        lemma_next_row(runs, i, prev, (k - 1) as nat);
        let row = next_row_upto(prev, runs[i - 1].0, runs[i].0, runs[i].1, (k - 1) as nat);
        match prev[k - 1] {
            Some(c) => {
                lemma_update(runs, i, row, c, k - 1);
            },
            None => {},
        }
    }
}

pub(crate) proof fn lemma_init_row(runs: Seq<(u8, nat)>)
    requires
        runs.len() >= 1,
        runs[0].1 <= 4,
    ensures
        row_ok(runs, 0, init_row(runs[0].1)),
{
    broadcast use lemma_copies_count;

    let n = runs[0].1;
    let r = runs[0].0;
    let row = init_row(n);
    let rest = residual(runs, 0, 0, n);
    assert(digits4(0) =~= Seq::<nat>::empty());
    assert(combs_tiles(digits4(0), Seq::<u8>::empty()).add(rest) =~= prefix_tiles(runs, 0));
    assert(fits(runs, 0, 0, n as int, 0));
    assert(row_ok(runs, 0, empty_row().update(n as int, Some(0nat)))) by {
        let row0 = empty_row().update(n as int, Some(0nat));
        assert forall|j: int| 0 <= j < 15 implies (#[trigger] row0[j] matches Some(c) ==> cell_ok(runs, 0, j, c)) by {
        }
    }
    let row0 = empty_row().update(n as int, Some(0nat));
    lemma_comb_tiles_copies(r);
    assert(digit1024(3, 0) == 3 && len1024(3) == 1 && digit1024(2, 0) == 2 && len1024(2) == 1) by {
        reveal_with_fuel(len1024, 3);
        lemma_digit1024_step(3, 0);
        lemma_digit1024_step(2, 0);
    }
    if n == 2 {
        lemma_fits_same(runs, 0, 0, rest, residual(runs, 0, 0, 0).add(comb_tiles(3, r)));
        lemma_fits_push(runs, 0, 0, 3, r, residual(runs, 0, 0, 0));
        lemma_row_push(runs, 0, row0, 0, 3);
        assert(row_push(row0, 0, 3) =~= row);
    } else if n == 3 {
        lemma_fits_same(runs, 0, 0, rest, residual(runs, 0, 0, 0).add(comb_tiles(2, r)));
        lemma_fits_push(runs, 0, 0, 2, r, residual(runs, 0, 0, 0));
        lemma_fits_same(runs, 0, 0, rest, residual(runs, 0, 0, 1).add(comb_tiles(3, r)));
        lemma_fits_push(runs, 0, 0, 3, r, residual(runs, 0, 0, 1));
        lemma_row_push(runs, 0, row0, 0, 2);
        lemma_row_push(runs, 0, row_push(row0, 0, 2), 1, 3);
        assert(row_push(row_push(row0, 0, 2), 1, 3) =~= row);
    } else if n == 4 {
        lemma_fits_same(runs, 0, 0, rest, residual(runs, 0, 0, 1).add(comb_tiles(2, r)));
        lemma_fits_push(runs, 0, 0, 2, r, residual(runs, 0, 0, 1));
        lemma_fits_same(runs, 0, 0, rest, residual(runs, 0, 0, 2).add(comb_tiles(3, r)));
        lemma_fits_push(runs, 0, 0, 3, r, residual(runs, 0, 0, 2));
        lemma_row_push(runs, 0, row0, 1, 2);
        lemma_row_push(runs, 0, row_push(row0, 1, 2), 2, 3);
        assert(row_push(row_push(row0, 1, 2), 2, 3) =~= row);
    } else {
        assert(row0 =~= row);
    }
}

pub(crate) proof fn lemma_dp_row(runs: Seq<(u8, nat)>, i: nat)
    requires
        i < runs.len(),
        forall|k: int| 0 <= k < runs.len() ==> (#[trigger] runs[k]).1 <= 4,
        prefix_count(runs, (runs.len() - 1) as nat) <= 14,
        table_fits(runs),
    ensures
        row_ok(runs, i as int, dp_row(runs, i)),
    decreases i,
{
    if i == 0 {
        lemma_init_row(runs);
    } else {
        lemma_dp_row(runs, (i - 1) as nat);
        let prev = dp_row(runs, (i - 1) as nat);
        assert forall|j: int| 0 <= j < 15 implies (#[trigger] prev[j] matches Some(c) ==> len1024(c) <= 6) by {
            assert(dp_row(runs, (i - 1) as nat)[j] == prev[j]);
        }
        lemma_prefix_count_mono(runs, i, (runs.len() - 1) as nat);
        lemma_next_row(runs, i as int, prev, 15);
    }
}

/// Every pattern that the search table holds after run `i` in a reached
/// state fits that state: together with the tiles the state holds back
/// (its open two-tile runs of the previous and this run's face, and its
/// single tiles of this run's face) it uses exactly the tiles of runs
/// `0..=i`. Stated for hands of at most 14 tiles with at most four of a face
/// on which no sequence of the search gathers more than six patterns.
pub proof fn law_table_sound(runs: Seq<(u8, nat)>, i: nat)
    requires
        i < runs.len(),
        forall|k: int| 0 <= k < runs.len() ==> (#[trigger] runs[k]).1 <= 4,
        prefix_count(runs, (runs.len() - 1) as nat) <= 14,
        table_fits(runs),
    ensures
        row_ok(runs, i as int, dp_row(runs, i)),
{
    lemma_dp_row(runs, i);
}

// ----- the law -----

pub(crate) proof fn lemma_combs_push(d: Seq<nat>, fs: Seq<u8>, e: nat, f: u8)
    requires
        fs.len() == d.len(),
    ensures
        combs_tiles(d.push(e), fs.push(f)) =~= combs_tiles(d, fs).add(comb_tiles(e, f)),
        pair_count(d.push(e)) == pair_count(d) + if e == 3 { 1nat } else { 0nat },
    decreases d.len(),
{
    if d.len() > 0 {
        lemma_combs_push(d.drop_first(), fs.drop_first(), e, f);
        assert(d.push(e).drop_first() =~= d.drop_first().push(e));
        assert(fs.push(f).drop_first() =~= fs.drop_first().push(f));
        assert(d.push(e)[0] == d[0]);
        assert(fs.push(f)[0] == fs[0]);
        assert(combs_tiles(d.push(e), fs.push(f)) == comb_tiles(d[0], fs[0]).add(
            combs_tiles(d.drop_first().push(e), fs.drop_first().push(f)),
        ));
    } else {
        assert(d.push(e).drop_first() =~= Seq::<nat>::empty());
        assert(fs.push(f).drop_first() =~= Seq::<u8>::empty());
        assert(d.push(e)[0] == e);
        assert(fs.push(f)[0] == f);
        assert(combs_tiles(d.push(e), fs.push(f)) == comb_tiles(e, f).add(
            combs_tiles(Seq::<nat>::empty(), Seq::<u8>::empty()),
        ));
        assert(pair_count(d.push(e)) == (if e == 3 { 1nat } else { 0nat }) + pair_count(Seq::<nat>::empty()));
    }
}

pub(crate) proof fn lemma_combs_reverse(d: Seq<nat>, fs: Seq<u8>)
    requires
        fs.len() == d.len(),
    ensures
        combs_tiles(d.reverse(), fs.reverse()) =~= combs_tiles(d, fs),
        pair_count(d.reverse()) == pair_count(d),
    decreases d.len(),
{
    if d.len() > 0 {
        let d1 = d.drop_first();
        let f1 = fs.drop_first();
        lemma_combs_reverse(d1, f1);
        assert(d.reverse() =~= d1.reverse().push(d[0]));
        assert(fs.reverse() =~= f1.reverse().push(fs[0]));
        lemma_combs_push(d1.reverse(), f1.reverse(), d[0], fs[0]);
    } else {
        assert(d.reverse() =~= d);
        assert(fs.reverse() =~= fs);
    }
}

/// Every pattern that the search returns decomposes the hand: its
/// combinations (at most one of them a pair, each run of three faces in a row
/// of one suit) can be placed so that they use exactly the hand's tiles.
/// Stated for hands of at most 14 tiles with at most four of a face, on
/// which no sequence of the search gathers more than six patterns.
pub proof fn law_search_sound(runs: Seq<(u8, nat)>)
    requires
        runs.len() >= 1,
        forall|k: int| 0 <= k < runs.len() ==> (#[trigger] runs[k]).1 <= 4,
        prefix_count(runs, (runs.len() - 1) as nat) <= 14,
        table_fits(runs),
    ensures
        forall|t: int| 0 <= t < search_result(runs).len() ==> decomposes(#[trigger] search_result(runs)[t], hand_tiles(runs)),
{
    let last = (runs.len() - 1) as nat;
    lemma_dp_row(runs, last);
    let row = dp_row(runs, last);
    match row[0] {
        Some(c) => {
            assert(len1024(c) <= 6) by {
                assert(dp_row(runs, last)[0] matches Some(c2) ==> len1024(c2) <= 6);
            }
            let d = digits1024(c);
            let rv = d.reverse();
            lemma_digits1024_index(c, 0);
            lemma_take_while_entries(rv);
            let items = back_items(c);
            assert forall|t: int| 0 <= t < search_result(runs).len() implies decomposes(
                #[trigger] search_result(runs)[t],
                hand_tiles(runs),
            ) by {
                let k = (d.len() - 1 - t) as nat;
                let p = items[t];
                assert(p == rv[t]);
                lemma_digits1024_index(c, k);
                assert(p == digit1024(c, k));
                assert(fits(runs, last as int, 0, 0, p));
                let dp = digits4(p);
                let fs = choose|fs: Seq<u8>|
                    {
                        &&& fs.len() == dp.len()
                        &&& forall|u: int| 0 <= u < dp.len() ==> comb_well_formed(#[trigger] dp[u], fs[u])
                        &&& combs_tiles(dp, fs).add(residual(runs, last as int, 0, 0)) == prefix_tiles(runs, last)
                    };
                assert(residual(runs, last as int, 0, 0) =~= Multiset::<u8>::empty());
                assert(combs_tiles(dp, fs) =~= hand_tiles(runs));
                crate::agari::digits::lemma_len4_bound(p, 5);
                assert(crate::agari::digits::pow4(5) == 1024) by {
                    reveal_with_fuel(crate::agari::digits::pow4, 6);
                }
                lemma_digits4_index(p, 0);
                lemma_reversed_digits(p);
                lemma_combs_reverse(dp, fs);
                let q = reversed_code(p);
                assert(search_result(runs)[t] == q);
                assert(digits4(q) == dp.reverse());
                assert(placed(digits4(q), fs.reverse(), hand_tiles(runs))) by {
                    assert forall|u: int| 0 <= u < dp.reverse().len() implies comb_well_formed(
                        #[trigger] dp.reverse()[u],
                        fs.reverse()[u],
                    ) by {
                        assert(comb_well_formed(dp[dp.len() - 1 - u], fs[fs.len() - 1 - u]));
                    }
                }
            }
        },
        None => {},
    }
}

// ----- from runs back to the tiles -----

pub(crate) proof fn lemma_prefix_congr(r1: Seq<(u8, nat)>, r2: Seq<(u8, nat)>, i: nat)
    requires
        i < r1.len(),
        i < r2.len(),
        forall|t: int| 0 <= t <= i ==> r1[t] == r2[t],
    ensures
        prefix_tiles(r1, i) == prefix_tiles(r2, i),
        prefix_count(r1, i) == prefix_count(r2, i),
    decreases i,
{
    if i > 0 {
        lemma_prefix_congr(r1, r2, (i - 1) as nat);
    }
}

/// The runs of a nonempty face sequence hold exactly its faces.
pub(crate) proof fn lemma_runs_hand(s: Seq<u8>)
    requires
        s.len() >= 1,
    ensures
        run_counts(s).len() >= 1,
        hand_tiles(run_counts(s)) =~= s.to_multiset(),
        prefix_count(run_counts(s), (run_counts(s).len() - 1) as nat) == s.len(),
    decreases s.len(),
{
    broadcast use lemma_copies_count;
    broadcast use vstd::seq_lib::group_to_multiset_ensures;

    let sp = s.drop_last();
    let x = s.last();
    assert(s =~= sp.push(x));
    let r = run_counts(sp);
    let rs = run_counts(s);
    if sp.len() == 0 {
        assert(r =~= Seq::<(u8, nat)>::empty());
        assert(rs =~= seq![(x, 1nat)]);
        assert(sp.to_multiset() =~= Multiset::<u8>::empty());
    } else {
        lemma_runs_hand(sp);
        let k = (r.len() - 1) as nat;
        if r.last().0 == x {
            assert(rs == r.update(k as int, (x, r.last().1 + 1)));
            if k > 0 {
                lemma_prefix_congr(r, rs, (k - 1) as nat);
            }
        } else {
            assert(rs == r.push((x, 1nat)));
            lemma_prefix_congr(r, rs, k);
        }
    }
}

/// Every pattern that `search_pattern` returns decomposes the hand's tiles
/// (their faces, counted with multiplicity), for hands of at most 14 tiles
/// with at most four of a face on which no sequence of the search gathers
/// more than six patterns.
pub proof fn law_search_pattern_sound(tiles: Seq<MJTile>)
    requires
        0 < tiles.len() <= 14,
        faces_within_four(tile_faces(tiles)),
        table_fits(run_counts(sorted_faces(tile_faces(tiles)))),
    ensures
        forall|t: int|
            0 <= t < search_result(run_counts(sorted_faces(tile_faces(tiles)))).len() ==> decomposes(
                #[trigger] search_result(run_counts(sorted_faces(tile_faces(tiles))))[t],
                tile_faces(tiles).to_multiset(),
            ),
{
    broadcast use vstd::seq_lib::group_to_multiset_ensures;

    let leq = |a: u8, b: u8| face_leq(a, b);
    let faces = tile_faces(tiles);
    let sorted = faces.sort_by(leq);
    lemma_face_leq_total();
    faces.lemma_sort_by_ensures(leq);
    assert(sorted.to_multiset().len() == sorted.len());
    assert(faces.to_multiset().len() == faces.len());
    let runs = run_counts(sorted);
    lemma_runs_hand(sorted);
    lemma_runs_le_count(sorted);
    assert forall|k: int| 0 <= k < runs.len() implies (#[trigger] runs[k]).1 <= 4 by {
        assert(runs[k].1 <= sorted.to_multiset().count(runs[k].0));
    }
    law_search_sound(runs);
}

} // verus!
