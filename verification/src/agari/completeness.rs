use vstd::prelude::*;
use crate::agari::pattern::front_items;
use crate::agari::soundness::lemma_len_mono;
use crate::agari::soundness::lemma_pushed_times_run;
use crate::agari::soundness::lemma_digits4_push;
use crate::agari::pattern_search::open_runs;
use crate::agari::pattern::reversed_code;
use crate::agari::soundness::lemma_items_fit;
use crate::agari::soundness::lemma_shuntu_items;
use crate::agari::soundness::lemma_take_while_all;
use crate::agari::soundness::lemma_take_while_entries;
use crate::agari::soundness::lemma_next_row;
use crate::agari::pattern::pushed_code;
use crate::agari::pattern::comb_code;
use crate::agari::pattern_search::pushed_times;
use crate::agari::soundness::lemma_push_each;
use crate::agari::soundness::lemma_push_cat_each;
use crate::agari::soundness::lemma_residual_split;
use crate::agari::soundness::lemma_comb_tiles_copies;
use crate::agari::soundness::lemma_fits_push;
use crate::agari::soundness::lemma_no_tuitu;
use crate::agari::soundness::comb_tiles;
use vstd::multiset::Multiset;
use crate::agari::digits::pow1024;
use crate::agari::digits::lemma_len1024_bound;
use crate::agari::pattern::seq_pushed_code;
use crate::agari::pattern_search::cell_code;
use crate::agari::soundness::row_ok;
use crate::agari::soundness::state_allowed;
use crate::agari::soundness::lemma_row_push;
use crate::agari::soundness::lemma_digit_mod54;
use crate::mjcore::mjtile::face_is_prev;
use crate::mjcore::mjcomb::MJCombCategory;
use crate::agari::digits::len4;
use crate::agari::digits::digits4;
use crate::agari::digits::lemma_digits4_index;
use crate::agari::pattern::code_has_tuitu;
use crate::agari::pattern_search::Row;
use crate::agari::pattern_search::row_push;
use crate::agari::pattern_search::at_least;
use crate::agari::pattern_search::push_each;
use crate::agari::pattern_search::push_repeat;
use crate::agari::pattern_search::push_cat_each;
use crate::agari::pattern_search::update;
use crate::agari::pattern_search::block_base;
use crate::agari::pattern_search::next_row_upto;
use crate::agari::pattern_search::empty_row;
use crate::agari::pattern_search::init_row;
use crate::agari::pattern_search::dp_row;
use crate::agari::soundness::pair_count;
use crate::agari::soundness::fits;
use crate::agari::soundness::residual;
use crate::agari::soundness::prefix_tiles;
use crate::agari::soundness::combs_tiles;
use crate::agari::soundness::comb_well_formed;
use crate::agari::soundness::prefix_count;
use crate::agari::soundness::state_lv;
use crate::agari::soundness::state_q;
use crate::agari::soundness::carries;
use crate::agari::soundness::carried_code;
use crate::agari::soundness::lemma_update_unfold;
use crate::agari::soundness::lemma_carried_fit;
use crate::agari::soundness::lemma_combs_len;
use crate::agari::soundness::lemma_prefix_len;
use crate::agari::soundness::lemma_residual_len;
use crate::agari::soundness::lemma_fits_len;
use crate::agari::digits::len1024;
use crate::agari::digits::digit1024;
use crate::agari::digits::digits1024;
use crate::agari::digits::lemma_digit1024_step;
use crate::agari::digits::lemma_digits1024_index;
use crate::agari::pattern::back_items;
use crate::agari::pattern::take_while_nonzero;
use crate::agari::pattern_search::search_result;
use crate::agari::soundness::cell_ok;
use crate::agari::soundness::table_fits;
use crate::agari::soundness::lemma_dp_row;
use crate::agari::soundness::lemma_prefix_count_mono;
use crate::agari::soundness::lemma_face_is_prev_succ;
use crate::agari::soundness::lemma_copies_count;
use crate::agari::soundness::hand_tiles;
use crate::agari::soundness::decomposes;
use crate::agari::soundness::placed;
use crate::agari::soundness::lemma_runs_hand;
use crate::agari::soundness::law_search_pattern_sound;
use crate::agari::pattern_search::run_counts;
use crate::agari::pattern_search::sorted_faces;
use crate::agari::pattern_search::tile_faces;
use crate::agari::pattern_search::faces_within_four;
use crate::agari::pattern_search::face_leq;
use crate::agari::pattern_search::lemma_face_leq_total;
use crate::agari::pattern_search::lemma_runs_le_count;
use crate::mjcore::mjtile::MJTile;

verus! {

// ----- splitting the runs into combinations -----

/// A split of a hand's runs into combinations, run by run: for each run, the
/// number of runs of three faces that start at its face, of three of a kinds
/// and of pairs of its face.
pub type Split = Seq<(nat, nat, nat)>;

/// The runs of three faces that start at run `i` (none outside the runs).
pub open spec fn starts(split: Split, i: int) -> nat {
    if 0 <= i < split.len() {
        split[i].0
    } else {
        0
    }
}

/// The pairs of runs `0..i`.
pub open spec fn pairs_before(split: Split, i: nat) -> nat
    decreases i,
{
    if i == 0 {
        0
    } else {
        pairs_before(split, (i - 1) as nat) + split[i - 1].2
    }
}

/// The combinations other than pairs completed within runs `0..i`: the
/// three of a kinds, and the runs of three faces whose last face is there.
pub open spec fn triples_before(split: Split, i: nat) -> nat
    decreases i,
{
    if i == 0 {
        0
    } else {
        triples_before(split, (i - 1) as nat) + starts(split, i - 3) + split[i - 1].1
    }
}

/// The split accounts for every tile of every run: each run's copies are
/// those of the runs of three faces through it, its three of a kinds and its
/// pairs; a run of three faces starts only where the next two runs have the
/// next two faces of one suit; there is at most one pair.
pub open spec fn split_ok(runs: Seq<(u8, nat)>, split: Split) -> bool {
    &&& split.len() == runs.len()
    &&& forall|i: int|
        0 <= i < runs.len() ==> #[trigger] runs[i].1 == split[i].0 + starts(split, i - 1) + starts(split, i - 2) + 3
            * split[i].1 + 2 * split[i].2
    &&& forall|i: int|
        #![trigger split[i]]
        0 <= i < runs.len() && split[i].0 > 0 ==> i + 2 < runs.len() && face_is_prev(runs[i].0, runs[i + 1].0)
            && face_is_prev(runs[i + 1].0, runs[i + 2].0)
    &&& pairs_before(split, split.len()) <= 1
}

/// The search state that the split passes through after run `i`: the runs
/// of three faces started one run before are open (two tiles held), those
/// started here hold one tile.
pub open spec fn split_state(split: Split, i: int) -> int {
    block_base(starts(split, i - 1) as int) + split[i].0
}

pub(crate) proof fn lemma_state_of(lv: int, q: int)
    requires
        0 <= lv,
        0 <= q,
        lv + q <= 4,
    ensures
        state_lv(block_base(lv) + q) == lv,
        state_q(block_base(lv) + q) == q,
        0 <= block_base(lv) + q <= 14,
        block_base(lv) + q == 0 <==> lv == 0 && q == 0,
{
}

pub(crate) proof fn lemma_pairs_mono(split: Split, i: nat, k: nat)
    requires
        i <= k,
    ensures
        pairs_before(split, i) <= pairs_before(split, k),
    decreases k,
{
    if i < k {
        lemma_pairs_mono(split, i, (k - 1) as nat);
    }
}

/// The tiles of runs `0..=i`, less those held in open runs of three faces,
/// are three for each completed combination other than a pair and two for
/// each pair.
pub(crate) proof fn lemma_split_count(runs: Seq<(u8, nat)>, split: Split, i: nat)
    requires
        split_ok(runs, split),
        i < runs.len(),
    ensures
        prefix_count(runs, i) - 2 * starts(split, i - 1) - starts(split, i as int) == 3 * triples_before(split, i + 1)
            + 2 * pairs_before(split, i + 1),
    decreases i,
{
    assert(runs[i as int].1 == split[i as int].0 + starts(split, i - 1) + starts(split, i - 2) + 3 * split[i as int].1
        + 2 * split[i as int].2);
    if i > 0 {
        lemma_split_count(runs, split, (i - 1) as nat);
    }
}

/// Where a pattern fits, its pair count is fixed by the number of tiles it
/// holds: with at most one pair, a multiple of three means none.
pub(crate) proof fn lemma_fits_pair_count(runs: Seq<(u8, nat)>, i: int, lv: int, q: int, p: nat, x: int, pr: nat)
    requires
        fits(runs, i, lv, q, p),
        0 <= lv,
        0 <= q,
        prefix_count(runs, i as nat) - 2 * lv - q == 3 * x + 2 * pr,
        pr <= 1,
    ensures
        pair_count(digits4(p)) == pr,
{
    let d = digits4(p);
    let rest = residual(runs, i, lv as nat, q as nat);
    let fs = choose|fs: Seq<u8>|
        #![trigger combs_tiles(d, fs)]
        {
            &&& fs.len() == d.len()
            &&& forall|t: int| 0 <= t < d.len() ==> comb_well_formed(#[trigger] d[t], fs[t])
            &&& combs_tiles(d, fs).add(rest) == prefix_tiles(runs, i as nat)
        };
    assert forall|t: int| 0 <= t < d.len() implies 1 <= #[trigger] d[t] <= 3 by {
        assert(comb_well_formed(d[t], fs[t]));
    }
    lemma_combs_len(d, fs);
    lemma_prefix_len(runs, i as nat);
    lemma_residual_len(runs, i, lv as nat, q as nat);
    lemma_digits4_index(p, 0);
    assert(combs_tiles(d, fs).len() + rest.len() == prefix_count(runs, i as nat));
}

pub(crate) proof fn lemma_pair_count_zero_entries(d: Seq<nat>)
    requires
        pair_count(d) == 0,
    ensures
        forall|t: int| 0 <= t < d.len() ==> #[trigger] d[t] != 3,
    decreases d.len(),
{
    if d.len() > 0 {
        lemma_pair_count_zero_entries(d.drop_first());
        assert forall|t: int| 0 <= t < d.len() implies #[trigger] d[t] != 3 by {
            if t > 0 {
                assert(d[t] == d.drop_first()[t - 1]);
            }
        }
    }
}

/// A pattern without a pair has no pair in its first five slots.
pub(crate) proof fn lemma_pairless(p: nat)
    requires
        pair_count(digits4(p)) == 0,
    ensures
        !code_has_tuitu(p),
{
    lemma_pair_count_zero_entries(digits4(p));
    lemma_digits4_index(p, 0);
    lemma_digits4_index(p, 1);
    lemma_digits4_index(p, 2);
    lemma_digits4_index(p, 3);
    lemma_digits4_index(p, 4);
}

// ----- reached states stay reached -----

/// Whether the step that extends pattern `p` by one combination of `cate`
/// pushes anything.
pub open spec fn pushes_once(p: nat, cate: MJCombCategory) -> bool {
    if cate == MJCombCategory::Tuitu {
        !code_has_tuitu(p) && len4(p) < 5
    } else {
        len4(p) + 1 <= 5
    }
}

pub(crate) proof fn lemma_push_each_some(row: Row, j: int, ps: Seq<nat>, j2: int)
    requires
        0 <= j < row.len(),
        0 <= j2 < row.len(),
    ensures
        push_each(row, j, ps).len() == row.len(),
        row[j2] is Some || (j2 == j && ps.len() > 0) ==> push_each(row, j, ps)[j2] is Some,
    decreases ps.len(),
{
    if ps.len() > 0 {
        lemma_push_each_some(row, j, ps.drop_last(), j2);
    }
}

pub(crate) proof fn lemma_push_repeat_some(row: Row, j: int, p: nat, cate: MJCombCategory, m: nat, j2: int)
    requires
        0 <= j < row.len(),
        0 <= j2 < row.len(),
    ensures
        push_repeat(row, j, p, cate, m).len() == row.len(),
        row[j2] is Some || (j2 == j && m > 0) ==> push_repeat(row, j, p, cate, m)[j2] is Some,
    decreases m,
{
    if m > 0 {
        lemma_push_repeat_some(row, j, p, cate, (m - 1) as nat, j2);
    }
}

/// Extending each pattern by one combination keeps reached states reached,
/// and reaches the target where some pattern is extended.
pub(crate) proof fn lemma_push_cat_each_some(row: Row, j: int, ps: Seq<nat>, cate: MJCombCategory, j2: int, u: int)
    requires
        0 <= j < row.len(),
        0 <= j2 < row.len(),
    ensures
        push_cat_each(row, j, ps, cate, 1).len() == row.len(),
        row[j2] is Some ==> push_cat_each(row, j, ps, cate, 1)[j2] is Some,
        j2 == j && 0 <= u < ps.len() && pushes_once(ps[u], cate) ==> push_cat_each(row, j, ps, cate, 1)[j2] is Some,
    decreases ps.len(),
{
    if ps.len() > 0 {
        let pl = ps.drop_last();
        let u2 = if u == ps.len() - 1 { -1 } else { u };
        if 0 <= u2 < pl.len() {
            assert(pl[u2] == ps[u2]);
        }
        lemma_push_cat_each_some(row, j, pl, cate, j2, u2);
        let row1 = push_cat_each(row, j, pl, cate, 1);
        lemma_push_repeat_some(row1, j, ps.last(), cate, 1, j2);
    }
}

/// The state-0 step keeps reached states reached.
pub(crate) proof fn lemma_update_zero_keep(row: Row, c: nat, l: u8, r: u8, m: int, lv: int, j2: int)
    requires
        row.len() == 15,
        0 <= lv,
        0 <= m,
        lv + m <= 4,
        0 <= j2 < 15,
    ensures
        update(row, c, 0, l, r, m, lv).len() == 15,
        row[j2] is Some ==> update(row, c, 0, l, r, m, lv)[j2] is Some,
{
    let b = block_base(lv);
    let ps = at_least(c);
    lemma_push_each_some(row, b + m, ps, j2);
    let row1 = push_each(row, b + m, ps);
    if m == 2 {
        lemma_push_cat_each_some(row1, b, ps, MJCombCategory::Tuitu, j2, -1);
    } else if m == 3 {
        lemma_push_cat_each_some(row1, b + 1, ps, MJCombCategory::Tuitu, j2, -1);
        let row2 = push_cat_each(row1, b + 1, ps, MJCombCategory::Tuitu, 1);
        lemma_push_cat_each_some(row2, b, ps, MJCombCategory::Koutu, j2, -1);
    } else if m == 4 {
        lemma_push_cat_each_some(row1, b + 2, ps, MJCombCategory::Tuitu, j2, -1);
        let row2 = push_cat_each(row1, b + 2, ps, MJCombCategory::Tuitu, 1);
        lemma_push_cat_each_some(row2, b + 1, ps, MJCombCategory::Koutu, j2, -1);
    }
}

/// The state-0 step on `m` copies, `s` of them left single, `k` in a three
/// of a kind and `t` in a pair, reaches the state with `s` singles, provided
/// the first carried pattern can take the three of a kind or the pair.
pub(crate) proof fn lemma_update_zero_reach(row: Row, c: nat, l: u8, r: u8, m: int, lv: int, s: int, k: int, t: int)
    requires
        row.len() == 15,
        0 <= lv,
        0 <= s,
        0 <= k <= 1,
        0 <= t <= 1,
        m == s + 3 * k + 2 * t,
        lv + m <= 4,
        at_least(c).len() >= 1,
        t == 1 ==> pushes_once(at_least(c)[0], MJCombCategory::Tuitu),
        k == 1 ==> pushes_once(at_least(c)[0], MJCombCategory::Koutu),
    ensures
        update(row, c, 0, l, r, m, lv)[block_base(lv) + s] is Some,
{
    let b = block_base(lv);
    let ps = at_least(c);
    let target = b + s;
    lemma_state_of(lv, m);
    lemma_push_each_some(row, b + m, ps, target);
    let row1 = push_each(row, b + m, ps);
    if m == 2 {
        lemma_push_cat_each_some(row1, b, ps, MJCombCategory::Tuitu, target, 0);
    } else if m == 3 {
        lemma_push_cat_each_some(row1, b + 1, ps, MJCombCategory::Tuitu, target, 0);
        let row2 = push_cat_each(row1, b + 1, ps, MJCombCategory::Tuitu, 1);
        lemma_push_cat_each_some(row2, b, ps, MJCombCategory::Koutu, target, 0);
    } else if m == 4 {
        lemma_push_cat_each_some(row1, b + 2, ps, MJCombCategory::Tuitu, target, 0);
        let row2 = push_cat_each(row1, b + 2, ps, MJCombCategory::Tuitu, 1);
        lemma_push_cat_each_some(row2, b + 1, ps, MJCombCategory::Koutu, target, 0);
    }
}

/// A step from any state keeps reached states reached.
pub(crate) proof fn lemma_update_keep(row: Row, c: nat, j: int, l: u8, r: u8, n: int, j2: int)
    requires
        row.len() == 15,
        0 <= j <= 14,
        0 <= n <= 4,
        0 <= j2 < 15,
    ensures
        update(row, c, j, l, r, n, 0).len() == 15,
        row[j2] is Some ==> update(row, c, j, l, r, n, 0)[j2] is Some,
{
    lemma_update_unfold(row, c, j, l, r, n);
    if carries(l, r, n, j) {
        lemma_update_zero_keep(row, carried_code(c, j), l, r, n - state_q(j) - state_lv(j), state_q(j), j2);
    }
}

pub(crate) proof fn lemma_next_row_keep(prev: Row, l: u8, r: u8, n: nat, k: nat, k2: nat, j2: int)
    requires
        k <= k2 <= 15,
        n <= 4,
        0 <= j2 < 15,
    ensures
        next_row_upto(prev, l, r, n, k2).len() == 15,
        next_row_upto(prev, l, r, n, k)[j2] is Some ==> next_row_upto(prev, l, r, n, k2)[j2] is Some,
    decreases k2,
{
    if k2 == 0 {
    } else {
        lemma_next_row_keep(prev, l, r, n, if k == k2 { (k2 - 1) as nat } else { k }, (k2 - 1) as nat, j2);
        let row = next_row_upto(prev, l, r, n, (k2 - 1) as nat);
        match prev[k2 - 1] {
            Some(c) => {
                lemma_update_keep(row, c, k2 - 1, l, r, n as int, j2);
            },
            None => {},
        }
    }
}

// ----- the split's path through the table -----

/// The step from the split's state after run `i - 1` reaches its state after
/// run `i`.
pub(crate) proof fn lemma_update_reach(runs: Seq<(u8, nat)>, split: Split, i: int, row: Row, c: nat)
    requires
        split_ok(runs, split),
        1 <= i < runs.len(),
        row.len() == 15,
        cell_ok(runs, i - 1, split_state(split, i - 1), c),
        len1024(c) <= 6,
        forall|k: int| 0 <= k < runs.len() ==> (#[trigger] runs[k]).1 <= 4,
        prefix_count(runs, i as nat) <= 14,
    ensures
        update(row, c, split_state(split, i - 1), runs[i - 1].0, runs[i].0, runs[i].1 as int, 0)[split_state(
            split,
            i,
        )] is Some,
{
    let l = runs[i - 1].0;
    let r = runs[i].0;
    let n = runs[i].1 as int;
    let s0 = starts(split, i - 2) as int;
    let s1 = split[i - 1].0 as int;
    let s2 = split[i].0 as int;
    let k = split[i].1 as int;
    let t = split[i].2 as int;
    let j = split_state(split, i - 1);
    assert(runs[i - 1].1 == split[i - 1].0 + starts(split, i - 2) + starts(split, i - 3) + 3 * split[i - 1].1 + 2
        * split[i - 1].2);
    assert(runs[i].1 == split[i].0 + starts(split, i - 1) + starts(split, i - 2) + 3 * split[i].1 + 2 * split[i].2);
    lemma_state_of(s0, s1);
    lemma_state_of(s1, s2);
    assert(state_lv(j) == s0 && state_q(j) == s1);
    if s1 > 0 {
        assert(face_is_prev(runs[i - 1].0, runs[i].0));
    }
    if s0 > 0 {
        assert(split[i - 2].0 > 0);
        assert(face_is_prev(runs[i - 1].0, runs[i].0));
    }
    assert(carries(l, r, n, j));
    lemma_update_unfold(row, c, j, l, r, n);
    lemma_carried_fit(runs, i, c, j);
    let m = n - s1 - s0;
    assert(m == s2 + 3 * k + 2 * t);
    let ps = at_least(carried_code(c, j));
    let p = ps[0];
    lemma_pairs_mono(split, (i + 1) as nat, split.len());
    assert(pairs_before(split, (i + 1) as nat) == pairs_before(split, i as nat) + t);
    assert(fits(runs, i, s1, m, p));
    lemma_fits_len(runs, i, p, residual(runs, i, s1 as nat, m as nat));
    lemma_residual_len(runs, i, s1 as nat, m as nat);
    lemma_prefix_len(runs, i as nat);
    if t == 1 {
        lemma_split_count(runs, split, i as nat);
        lemma_pairs_mono(split, (i + 1) as nat, split.len());
        assert(pairs_before(split, (i + 1) as nat) == pairs_before(split, i as nat) + t);
        lemma_fits_pair_count(
            runs,
            i,
            s1,
            m,
            p,
            triples_before(split, (i + 1) as nat) - k,
            pairs_before(split, i as nat),
        );
        lemma_pairless(p);
    }
    lemma_update_zero_reach(row, carried_code(c, j), l, r, m, s1, s2, k, t);
}

/// The first row holds the split's state after the first run.
pub(crate) proof fn lemma_init_reach(runs: Seq<(u8, nat)>, split: Split)
    requires
        split_ok(runs, split),
        runs.len() >= 1,
        runs[0].1 <= 4,
    ensures
        init_row(runs[0].1)[split_state(split, 0)] is Some,
        init_row(runs[0].1).len() == 15,
{
    assert(runs[0].1 == split[0].0 + starts(split, -1) + starts(split, -2) + 3 * split[0].1 + 2 * split[0].2);
    assert(pairs_before(split, 0) == 0);
    assert(pairs_before(split, 1) == split[0].2);
    lemma_pairs_mono(split, 1, split.len());
    let n = runs[0].1;
    let s = split[0].0;
    assert(split_state(split, 0) == s);
    let r0 = empty_row().update(n as int, Some(0nat));
    assert(r0.len() == 15);
    if n == 2 {
        assert(init_row(n) == r0.update(0, Some(3nat)));
    } else if n == 3 {
        assert(init_row(n) == r0.update(0, Some(2nat)).update(1, Some(3nat)));
    } else if n == 4 {
        assert(init_row(n) == r0.update(1, Some(2nat)).update(2, Some(3nat)));
    } else {
        assert(init_row(n) == r0);
    }
}

/// Every row of the table holds the split's state after its run.
pub(crate) proof fn lemma_path_reach(runs: Seq<(u8, nat)>, split: Split, i: nat)
    requires
        split_ok(runs, split),
        i < runs.len(),
        forall|k: int| 0 <= k < runs.len() ==> (#[trigger] runs[k]).1 <= 4,
        prefix_count(runs, (runs.len() - 1) as nat) <= 14,
        table_fits(runs),
    ensures
        dp_row(runs, i)[split_state(split, i as int)] is Some,
    decreases i,
{
    if i == 0 {
        lemma_init_reach(runs, split);
    } else {
        lemma_path_reach(runs, split, (i - 1) as nat);
        let prev = dp_row(runs, (i - 1) as nat);
        let jp = split_state(split, i - 1);
        let j = split_state(split, i as int);
        let l = runs[i - 1].0;
        let r = runs[i as int].0;
        let n = runs[i as int].1;
        assert(runs[i - 1].1 == split[i - 1].0 + starts(split, i - 2) + starts(split, i - 3) + 3 * split[i - 1].1 + 2
            * split[i - 1].2);
        assert(runs[i as int].1 == split[i as int].0 + starts(split, i - 1) + starts(split, i - 2) + 3
            * split[i as int].1 + 2 * split[i as int].2);
            lemma_state_of(starts(split, i - 2) as int, split[i - 1].0 as int);
        lemma_state_of(split[i - 1].0 as int, split[i as int].0 as int);
        let c = prev[jp]->0;
        lemma_dp_row(runs, (i - 1) as nat);
        assert(cell_ok(runs, i - 1, jp, c));
        assert(len1024(c) <= 6) by {
            assert(dp_row(runs, (i - 1) as nat)[jp] matches Some(c2) ==> len1024(c2) <= 6);
        }
        lemma_prefix_count_mono(runs, i, (runs.len() - 1) as nat);
        let row0 = next_row_upto(prev, l, r, n, jp as nat);
        lemma_next_row_keep(prev, l, r, n, jp as nat, jp as nat, j);
        assert(next_row_upto(prev, l, r, n, (jp + 1) as nat) == update(row0, c, jp, l, r, n as int, 0));
        lemma_update_reach(runs, split, i as int, row0, c);
        lemma_next_row_keep(prev, l, r, n, (jp + 1) as nat, 15, j);
    }
}

/// A split of a nonempty hand leads the search to a nonempty result.
pub(crate) proof fn lemma_split_result(runs: Seq<(u8, nat)>, split: Split)
    requires
        split_ok(runs, split),
        runs.len() >= 1,
        forall|k: int| 0 <= k < runs.len() ==> 1 <= (#[trigger] runs[k]).1 <= 4,
        prefix_count(runs, (runs.len() - 1) as nat) <= 14,
        table_fits(runs),
    ensures
        search_result(runs).len() > 0,
{
    let last = (runs.len() - 1) as nat;
    assert forall|k: int| 0 <= k < runs.len() implies (#[trigger] runs[k]).1 <= 4 by {
        assert(1 <= runs[k].1 <= 4);
    }
    lemma_path_reach(runs, split, last);
    assert(split[last as int].0 == 0);
    if last > 0 {
        assert(split[last - 1].0 == 0);
    }
    assert(split_state(split, last as int) == 0);
    lemma_dp_row(runs, last);
    let row = dp_row(runs, last);
    let c = row[0]->0;
    assert(cell_ok(runs, last as int, 0, c));
    assert(len1024(c) <= 6) by {
        assert(dp_row(runs, last)[0] matches Some(c2) ==> len1024(c2) <= 6);
    }
    lemma_prefix_len(runs, last);
    lemma_prefix_count_pos(runs, last);
    if c == 0 {
        assert(fits(runs, last as int, 0, 0, 0));
        let d = digits4(0);
        assert(d =~= Seq::<nat>::empty());
        let fs = choose|fs: Seq<u8>|
            #![trigger combs_tiles(d, fs)]
            {
                &&& fs.len() == d.len()
                &&& forall|t: int| 0 <= t < d.len() ==> comb_well_formed(#[trigger] d[t], fs[t])
                &&& combs_tiles(d, fs).add(residual(runs, last as int, 0, 0)) == prefix_tiles(runs, last)
            };
        lemma_residual_len(runs, last as int, 0, 0);
        assert(combs_tiles(d, fs).len() == 0);
        assert(false);
    }
    lemma_top_slot(c);
    let ds = digits1024(c);
    lemma_digits1024_index(c, (len1024(c) - 1) as nat);
    assert(ds.reverse()[0] == ds[ds.len() - 1]);
    assert(back_items(c).len() >= 1) by {
        assert(ds.reverse().len() > 0 && ds.reverse()[0] != 0);
        assert(take_while_nonzero(ds.reverse()) == seq![ds.reverse()[0]] + take_while_nonzero(
            ds.reverse().drop_first(),
        ));
    }
}

pub(crate) proof fn lemma_prefix_count_pos(runs: Seq<(u8, nat)>, i: nat)
    requires
        i < runs.len(),
        runs[0].1 >= 1,
    ensures
        prefix_count(runs, i) >= 1,
    decreases i,
{
    if i > 0 {
        lemma_prefix_count_pos(runs, (i - 1) as nat);
    }
}

/// The top slot of a nonzero code is not empty.
pub(crate) proof fn lemma_top_slot(c: nat)
    requires
        c != 0,
    ensures
        len1024(c) >= 1,
        digit1024(c, (len1024(c) - 1) as nat) != 0,
    decreases c,
{
    lemma_digits1024_index(c, 0);
    lemma_digit1024_step(c, 0);
    if c / 1024 != 0 {
        lemma_top_slot(c / 1024);
        lemma_digits1024_index(c / 1024, 0);
        lemma_digit1024_step(c, (len1024(c / 1024) - 1) as nat);
    } else {
        assert(len1024(c) == 1) by {
            assert(len1024(0) == 0);
        }
    }
}

// ----- from placed combinations to a split -----

/// The runs' faces rise strictly from one run to the next.
pub open spec fn faces_rise(runs: Seq<(u8, nat)>) -> bool {
    forall|a: int, b: int| 0 <= a < b < runs.len() ==> runs[a].0 < runs[b].0
}

/// The number of combinations with codes `d` at lowest faces `fs` that have
/// code `e` and lowest face `x`.
pub open spec fn count_at(d: Seq<nat>, fs: Seq<u8>, e: nat, x: int) -> nat
    decreases d.len(),
{
    if d.len() == 0 {
        0
    } else {
        (if d[0] == e && fs[0] as int == x {
            1nat
        } else {
            0nat
        }) + count_at(d.drop_first(), fs.drop_first(), e, x)
    }
}

pub(crate) proof fn lemma_count_at_range(d: Seq<nat>, fs: Seq<u8>, e: nat, x: int)
    requires
        x < 0 || x > 255,
    ensures
        count_at(d, fs, e, x) == 0,
    decreases d.len(),
{
    if d.len() > 0 {
        lemma_count_at_range(d.drop_first(), fs.drop_first(), e, x);
    }
}

pub(crate) proof fn lemma_count_at_pos(d: Seq<nat>, fs: Seq<u8>, e: nat, x: int)
    requires
        count_at(d, fs, e, x) > 0,
        fs.len() == d.len(),
    ensures
        exists|t: int| 0 <= t < d.len() && #[trigger] d[t] == e && fs[t] as int == x,
    decreases d.len(),
{
    if !(d[0] == e && fs[0] as int == x) {
        lemma_count_at_pos(d.drop_first(), fs.drop_first(), e, x);
        let t = choose|t: int| 0 <= t < d.drop_first().len() && #[trigger] d.drop_first()[t] == e && fs.drop_first()[t] as int == x;
        assert(d[t + 1] == e && fs[t + 1] as int == x);
    } else {
        assert(d[0] == e);
    }
}

/// How many copies of face `x` placed combinations use: one for each run of
/// three faces starting at `x`, `x - 1` or `x - 2`, three for each three of a
/// kind and two for each pair of `x`.
pub(crate) proof fn lemma_combs_count(d: Seq<nat>, fs: Seq<u8>, x: u8)
    requires
        fs.len() == d.len(),
        forall|t: int| 0 <= t < d.len() ==> comb_well_formed(#[trigger] d[t], fs[t]),
    ensures
        combs_tiles(d, fs).count(x) == count_at(d, fs, 1, x as int) + count_at(d, fs, 1, x - 1) + count_at(
            d,
            fs,
            1,
            x - 2,
        ) + 3 * count_at(d, fs, 2, x as int) + 2 * count_at(d, fs, 3, x as int),
    decreases d.len(),
{
    broadcast use vstd::multiset::group_multiset_axioms;

    if d.len() > 0 {
        let d1 = d.drop_first();
        let f1 = fs.drop_first();
        assert forall|t: int| 0 <= t < d1.len() implies comb_well_formed(#[trigger] d1[t], f1[t]) by {
            assert(d1[t] == d[t + 1] && f1[t] == fs[t + 1]);
        }
        lemma_combs_count(d1, f1, x);
        let f = fs[0];
        assert(comb_well_formed(d[0], fs[0]));
        if d[0] == 1 {
            lemma_face_is_prev_succ(f, (f + 1) as u8);
            lemma_face_is_prev_succ((f + 1) as u8, (f + 2) as u8);
        }
    }
}

pub(crate) proof fn lemma_face_absent(runs: Seq<(u8, nat)>, i: nat, x: u8)
    requires
        i < runs.len(),
        forall|u: int| 0 <= u <= i ==> runs[u].0 != x,
    ensures
        prefix_tiles(runs, i).count(x) == 0,
    decreases i,
{
    broadcast use lemma_copies_count;

    assert(runs[i as int].0 != x);
    if i > 0 {
        lemma_face_absent(runs, (i - 1) as nat, x);
    }
}

pub(crate) proof fn lemma_face_present(runs: Seq<(u8, nat)>, i: nat, u: int)
    requires
        i < runs.len(),
        0 <= u <= i,
        faces_rise(runs),
    ensures
        prefix_tiles(runs, i).count(runs[u].0) == runs[u].1,
    decreases i,
{
    broadcast use lemma_copies_count;

    if i > 0 {
        if u < i {
            lemma_face_present(runs, (i - 1) as nat, u);
            assert(runs[u].0 < runs[i as int].0);
        } else {
            lemma_face_absent(runs, (i - 1) as nat, runs[u].0);
        }
    }
}

/// A face strictly between run `a` (or below the first run, for `a == -1`)
/// and the next run is not in the hand.
pub(crate) proof fn lemma_gap(runs: Seq<(u8, nat)>, a: int, x: int)
    requires
        faces_rise(runs),
        runs.len() >= 1,
        -1 <= a < runs.len(),
        0 <= x <= 255,
        a >= 0 ==> runs[a].0 < x,
        a + 1 < runs.len() ==> x < runs[a + 1].0,
    ensures
        hand_tiles(runs).count(x as u8) == 0,
{
    assert forall|u: int| 0 <= u <= runs.len() - 1 implies runs[u].0 != x as u8 by {
        if u <= a && u < a {
            assert(runs[u].0 < runs[a].0);
        }
        if u > a + 1 {
            assert(runs[a + 1].0 < runs[u].0);
        }
    }
    lemma_face_absent(runs, (runs.len() - 1) as nat, x as u8);
}

/// The split that placed combinations make: for each run, those starting or
/// lying at its face.
pub open spec fn split_of(runs: Seq<(u8, nat)>, d: Seq<nat>, fs: Seq<u8>) -> Split {
    Seq::new(
        runs.len(),
        |i: int|
            (
                count_at(d, fs, 1, runs[i].0 as int),
                count_at(d, fs, 2, runs[i].0 as int),
                count_at(d, fs, 3, runs[i].0 as int),
            ),
    )
}

/// A run of three faces placed at run `i` has its next two faces at runs
/// `i + 1` and `i + 2`.
pub(crate) proof fn lemma_split_of_starts(runs: Seq<(u8, nat)>, d: Seq<nat>, fs: Seq<u8>, i: int)
    requires
        faces_rise(runs),
        runs.len() >= 1,
        fs.len() == d.len(),
        forall|t: int| 0 <= t < d.len() ==> comb_well_formed(#[trigger] d[t], fs[t]),
        combs_tiles(d, fs) == hand_tiles(runs),
        0 <= i < runs.len(),
        count_at(d, fs, 1, runs[i].0 as int) > 0,
    ensures
        i + 2 < runs.len(),
        runs[i + 1].0 == runs[i].0 + 1,
        runs[i + 2].0 == runs[i].0 + 2,
        face_is_prev(runs[i].0, runs[i + 1].0),
        face_is_prev(runs[i + 1].0, runs[i + 2].0),
{
    let f = runs[i].0;
    lemma_count_at_pos(d, fs, 1, f as int);
    let t = choose|t: int| 0 <= t < d.len() && #[trigger] d[t] == 1 && fs[t] as int == f as int;
    assert(comb_well_formed(d[t], fs[t]));
    lemma_face_is_prev_succ(f, (f + 1) as u8);
    lemma_face_is_prev_succ((f + 1) as u8, (f + 2) as u8);
    let x1 = (f + 1) as u8;
    let x2 = (f + 2) as u8;
    lemma_combs_count(d, fs, x1);
    lemma_combs_count(d, fs, x2);
    assert(hand_tiles(runs).count(x1) > 0);
    assert(hand_tiles(runs).count(x2) > 0);
    if !(i + 1 < runs.len() && runs[i + 1].0 == x1) {
        if i + 1 < runs.len() {
            assert(runs[i].0 < runs[i + 1].0);
        }
        lemma_gap(runs, i, x1 as int);
    }
    if !(i + 2 < runs.len() && runs[i + 2].0 == x2) {
        if i + 2 < runs.len() {
            assert(runs[i + 1].0 < runs[i + 2].0);
        }
        lemma_gap(runs, i + 1, x2 as int);
    }
}

/// The runs of three faces through run `i` that started one or two runs
/// before are those the split counts there.
pub(crate) proof fn lemma_split_of_through(runs: Seq<(u8, nat)>, d: Seq<nat>, fs: Seq<u8>, i: int)
    requires
        faces_rise(runs),
        runs.len() >= 1,
        fs.len() == d.len(),
        forall|t: int| 0 <= t < d.len() ==> comb_well_formed(#[trigger] d[t], fs[t]),
        combs_tiles(d, fs) == hand_tiles(runs),
        0 <= i < runs.len(),
    ensures
        count_at(d, fs, 1, runs[i].0 - 1) == starts(split_of(runs, d, fs), i - 1),
        count_at(d, fs, 1, runs[i].0 - 2) == starts(split_of(runs, d, fs), i - 2),
{
    let sp = split_of(runs, d, fs);
    let f = runs[i].0 as int;
    if i >= 1 {
        assert(runs[i - 1].0 < runs[i].0);
    }
    if i >= 2 {
        assert(runs[i - 2].0 < runs[i - 1].0);
    }
    // one run before
    if !(i >= 1 && runs[i - 1].0 == f - 1) {
        if f - 1 < 0 {
            lemma_count_at_range(d, fs, 1, f - 1);
        } else {
            lemma_gap(runs, i - 1, f - 1);
            lemma_combs_count(d, fs, (f - 1) as u8);
        }
        if i >= 1 && sp[i - 1].0 > 0 {
            lemma_split_of_starts(runs, d, fs, i - 1);
        }
    }
    // two runs before
    if !(i >= 2 && runs[i - 2].0 == f - 2) {
        if i >= 2 && sp[i - 2].0 > 0 {
            lemma_split_of_starts(runs, d, fs, i - 2);
        }
        if f - 2 < 0 {
            lemma_count_at_range(d, fs, 1, f - 2);
        } else if !(i >= 1 && runs[i - 1].0 == f - 1) {
            lemma_gap(runs, i - 1, f - 1);
            lemma_combs_count(d, fs, (f - 1) as u8);
        } else {
            lemma_gap(runs, i - 2, f - 2);
            lemma_combs_count(d, fs, (f - 2) as u8);
        }
    }
}

pub(crate) proof fn lemma_count_at_pairs(d: Seq<nat>, fs: Seq<u8>, x: int)
    ensures
        count_at(d, fs, 3, x) <= pair_count(d),
    decreases d.len(),
{
    if d.len() > 0 {
        lemma_count_at_pairs(d.drop_first(), fs.drop_first(), x);
    }
}

/// Combinations with exactly one pair have it at one face.
pub(crate) proof fn lemma_one_pair(d: Seq<nat>, fs: Seq<u8>) -> (y: int)
    requires
        pair_count(d) == 1,
    ensures
        forall|x: int| #[trigger] count_at(d, fs, 3, x) == if x == y { 1nat } else { 0nat },
    decreases d.len(),
{
    let d1 = d.drop_first();
    let f1 = fs.drop_first();
    if d[0] == 3 {
        assert forall|x: int| #[trigger] count_at(d, fs, 3, x) == if x == fs[0] as int { 1nat } else { 0nat } by {
            lemma_count_at_pairs(d1, f1, x);
        }
        fs[0] as int
    } else {
        let y = lemma_one_pair(d1, f1);
        assert forall|x: int| #[trigger] count_at(d, fs, 3, x) == if x == y { 1nat } else { 0nat } by {
            assert(count_at(d1, f1, 3, x) == if x == y { 1nat } else { 0nat });
        }
        y
    }
}

pub(crate) proof fn lemma_pairs_none(split: Split, i: nat)
    requires
        i <= split.len(),
        forall|u: int| 0 <= u < split.len() ==> (#[trigger] split[u]).2 == 0,
    ensures
        pairs_before(split, i) == 0,
    decreases i,
{
    if i > 0 {
        lemma_pairs_none(split, (i - 1) as nat);
    }
}

pub(crate) proof fn lemma_pairs_one_face(runs: Seq<(u8, nat)>, split: Split, y: int, i: nat)
    requires
        faces_rise(runs),
        split.len() == runs.len(),
        i <= split.len(),
        forall|u: int| 0 <= u < split.len() ==> (#[trigger] split[u]).2 == if runs[u].0 as int == y { 1nat } else { 0nat },
    ensures
        pairs_before(split, i) <= 1,
        pairs_before(split, i) == 1 ==> exists|u: int| 0 <= u < i && runs[u].0 as int == y,
    decreases i,
{
    if i > 0 {
        lemma_pairs_one_face(runs, split, y, (i - 1) as nat);
        assert(split[i - 1].2 == if runs[i - 1].0 as int == y { 1nat } else { 0nat });
        if pairs_before(split, (i - 1) as nat) == 1 && runs[i - 1].0 as int == y {
            let u = choose|u: int| 0 <= u < i - 1 && runs[u].0 as int == y;
            assert(runs[u].0 < runs[i - 1].0);
        }
    }
}

/// Placed combinations with at most one pair that use exactly the hand's
/// tiles make a split of its runs.
pub(crate) proof fn lemma_split_of_ok(runs: Seq<(u8, nat)>, d: Seq<nat>, fs: Seq<u8>)
    requires
        faces_rise(runs),
        runs.len() >= 1,
        fs.len() == d.len(),
        forall|t: int| 0 <= t < d.len() ==> comb_well_formed(#[trigger] d[t], fs[t]),
        combs_tiles(d, fs) == hand_tiles(runs),
        pair_count(d) <= 1,
    ensures
        split_ok(runs, split_of(runs, d, fs)),
{
    let sp = split_of(runs, d, fs);
    let last = (runs.len() - 1) as nat;
    assert forall|i: int| 0 <= i < runs.len() implies #[trigger] runs[i].1 == sp[i].0 + starts(sp, i - 1) + starts(
        sp,
        i - 2,
    ) + 3 * sp[i].1 + 2 * sp[i].2 by {
        lemma_face_present(runs, last, i);
        lemma_combs_count(d, fs, runs[i].0);
        lemma_split_of_through(runs, d, fs, i);
    }
    assert forall|i: int| #![trigger sp[i]] 0 <= i < runs.len() && sp[i].0 > 0 implies i + 2 < runs.len() && face_is_prev(
        runs[i].0,
        runs[i + 1].0,
    ) && face_is_prev(runs[i + 1].0, runs[i + 2].0) by {
        lemma_split_of_starts(runs, d, fs, i);
    }
    if pair_count(d) == 0 {
        assert forall|u: int| 0 <= u < sp.len() implies (#[trigger] sp[u]).2 == 0 by {
            lemma_count_at_pairs(d, fs, runs[u].0 as int);
        }
        lemma_pairs_none(sp, sp.len());
    } else {
        let y = lemma_one_pair(d, fs);
        assert forall|u: int| 0 <= u < sp.len() implies (#[trigger] sp[u]).2 == if runs[u].0 as int == y {
            1nat
        } else {
            0nat
        } by {
            assert(count_at(d, fs, 3, runs[u].0 as int) == if runs[u].0 as int == y { 1nat } else { 0nat });
        }
        lemma_pairs_one_face(runs, sp, y, sp.len());
    }
}

// ----- the laws -----

/// If the hand's tiles can be split into combinations at all (at most one of
/// them a pair, each run of three faces in a row of one suit), the search
/// returns at least one pattern. Stated for runs of rising faces with one to
/// four copies each and at most 14 tiles in all, on which no sequence of the
/// search gathers more than six patterns.
pub proof fn law_search_complete(runs: Seq<(u8, nat)>, p: nat)
    requires
        runs.len() >= 1,
        faces_rise(runs),
        forall|k: int| 0 <= k < runs.len() ==> 1 <= (#[trigger] runs[k]).1 <= 4,
        prefix_count(runs, (runs.len() - 1) as nat) <= 14,
        table_fits(runs),
        decomposes(p, hand_tiles(runs)),
    ensures
        search_result(runs).len() > 0,
{
    let d = digits4(p);
    let fs = choose|fs: Seq<u8>| placed(d, fs, hand_tiles(runs));
    lemma_split_of_ok(runs, d, fs);
    let sp = split_of(runs, d, fs);
    lemma_split_result(runs, sp);
}

/// The runs of a face sequence in ascending order have rising faces, each at
/// least once; the last run has the last face.
pub(crate) proof fn lemma_runs_rise(s: Seq<u8>)
    requires
        forall|a: int, b: int| 0 <= a < b < s.len() ==> s[a] <= s[b],
    ensures
        faces_rise(run_counts(s)),
        forall|k: int| 0 <= k < run_counts(s).len() ==> (#[trigger] run_counts(s)[k]).1 >= 1,
        s.len() > 0 ==> run_counts(s).len() > 0 && run_counts(s).last().0 == s.last(),
    decreases s.len(),
{
    if s.len() > 0 {
        let sp = s.drop_last();
        let x = s.last();
        assert forall|a: int, b: int| 0 <= a < b < sp.len() implies sp[a] <= sp[b] by {
            assert(sp[a] == s[a] && sp[b] == s[b]);
        }
        lemma_runs_rise(sp);
        let r = run_counts(sp);
        let rs = run_counts(s);
        if r.len() > 0 && r.last().0 == x {
            assert(rs == r.update(r.len() - 1, (x, r.last().1 + 1)));
            assert forall|a: int, b: int| 0 <= a < b < rs.len() implies rs[a].0 < rs[b].0 by {
                assert(rs[a].0 == r[a].0 && rs[b].0 == r[b].0);
            }
            assert forall|k: int| 0 <= k < rs.len() implies (#[trigger] rs[k]).1 >= 1 by {
                if k < r.len() - 1 {
                    assert(rs[k] == r[k]);
                }
            }
        } else {
            assert(rs == r.push((x, 1nat)));
            if sp.len() > 0 {
                assert(sp.last() == s[s.len() - 2]);
                assert(sp.last() <= x);
            }
            assert forall|a: int, b: int| 0 <= a < b < rs.len() implies rs[a].0 < rs[b].0 by {
                if b == rs.len() - 1 {
                    assert(rs[b].0 == x);
                    assert(rs[a] == r[a]);
                    if a < r.len() - 1 {
                        assert(r[a].0 < r[r.len() - 1].0);
                    }
                } else {
                    assert(rs[a] == r[a] && rs[b] == r[b]);
                }
            }
            assert forall|k: int| 0 <= k < rs.len() implies (#[trigger] rs[k]).1 >= 1 by {
                if k < r.len() {
                    assert(rs[k] == r[k]);
                }
            }
        }
    }
}

/// If the tiles can be split into combinations at all (their faces, counted
/// with multiplicity; at most one pair; each run of three faces in a row of
/// one suit), `search_pattern` returns at least one pattern. Stated for
/// hands of at most 14 tiles with at most four of a face on which no
/// sequence of the search gathers more than six patterns.
pub proof fn law_search_pattern_complete(tiles: Seq<MJTile>, p: nat)
    requires
        0 < tiles.len() <= 14,
        faces_within_four(tile_faces(tiles)),
        table_fits(run_counts(sorted_faces(tile_faces(tiles)))),
        decomposes(p, tile_faces(tiles).to_multiset()),
    ensures
        search_result(run_counts(sorted_faces(tile_faces(tiles)))).len() > 0,
{
    let runs = run_counts(sorted_faces(tile_faces(tiles)));
    lemma_sorted_runs(tiles);
    law_search_complete(runs, p);
}

/// The runs of a hand's faces in ascending order: rising faces, one to four
/// copies each, holding exactly the hand's faces.
pub(crate) proof fn lemma_sorted_runs(tiles: Seq<MJTile>)
    requires
        0 < tiles.len() <= 14,
        faces_within_four(tile_faces(tiles)),
    ensures
        run_counts(sorted_faces(tile_faces(tiles))).len() >= 1,
        faces_rise(run_counts(sorted_faces(tile_faces(tiles)))),
        forall|k: int|
            0 <= k < run_counts(sorted_faces(tile_faces(tiles))).len() ==> 1 <= (#[trigger] run_counts(
                sorted_faces(tile_faces(tiles)),
            )[k]).1 <= 4,
        prefix_count(
            run_counts(sorted_faces(tile_faces(tiles))),
            (run_counts(sorted_faces(tile_faces(tiles))).len() - 1) as nat,
        ) == tiles.len(),
        hand_tiles(run_counts(sorted_faces(tile_faces(tiles)))) == tile_faces(tiles).to_multiset(),
{
    broadcast use vstd::seq_lib::group_to_multiset_ensures;

    let leq = |a: u8, b: u8| face_leq(a, b);
    let faces = tile_faces(tiles);
    let sorted = faces.sort_by(leq);
    lemma_face_leq_total();
    faces.lemma_sort_by_ensures(leq);
    assert(sorted.to_multiset().len() == sorted.len());
    assert(faces.to_multiset().len() == faces.len());
    let runs = run_counts(sorted);
    lemma_runs_hand(sorted);
    lemma_runs_le_count(sorted);
    assert forall|a: int, b: int| 0 <= a < b < sorted.len() implies sorted[a] <= sorted[b] by {
        assert(leq(sorted[a], sorted[b]));
    }
    lemma_runs_rise(sorted);
    assert forall|k: int| 0 <= k < runs.len() implies 1 <= (#[trigger] runs[k]).1 <= 4 by {
        assert(runs[k].1 <= sorted.to_multiset().count(runs[k].0));
    }
    assert(hand_tiles(runs) == faces.to_multiset());
}

/// `search_pattern` returns exactly the splits of the tiles' faces: a
/// pattern is among its results if and only if it lists, in the order in
/// which they are completed, the combinations of a split of the faces in
/// ascending order (see `law_search_lists_the_splits`). Stated for hands of
/// at most 14 tiles with at most four of a face on which no sequence of the
/// search gathers more than six patterns.
pub proof fn law_search_pattern_lists_the_splits(tiles: Seq<MJTile>, p: nat)
    requires
        0 < tiles.len() <= 14,
        faces_within_four(tile_faces(tiles)),
        table_fits(run_counts(sorted_faces(tile_faces(tiles)))),
    ensures
        search_result(run_counts(sorted_faces(tile_faces(tiles)))).contains(p) <==> is_split_pattern(
            run_counts(sorted_faces(tile_faces(tiles))),
            p,
        ),
{
    lemma_sorted_runs(tiles);
    law_search_lists_the_splits(run_counts(sorted_faces(tile_faces(tiles))), p);
}

/// `search_pattern` returns no pattern exactly when the tiles cannot be
/// split into combinations (their faces, counted with multiplicity; at most
/// one pair; each run of three faces in a row of one suit). Stated for
/// hands of at most 14 tiles with at most four of a face on which no
/// sequence of the search gathers more than six patterns.
pub proof fn law_search_pattern_empty_iff(tiles: Seq<MJTile>)
    requires
        0 < tiles.len() <= 14,
        faces_within_four(tile_faces(tiles)),
        table_fits(run_counts(sorted_faces(tile_faces(tiles)))),
    ensures
        search_result(run_counts(sorted_faces(tile_faces(tiles)))).len() == 0 <==> !exists|p: nat|
            decomposes(p, tile_faces(tiles).to_multiset()),
{
    let res = search_result(run_counts(sorted_faces(tile_faces(tiles))));
    if exists|p: nat| decomposes(p, tile_faces(tiles).to_multiset()) {
        let p = choose|p: nat| decomposes(p, tile_faces(tiles).to_multiset());
        law_search_pattern_complete(tiles, p);
    }
    if res.len() > 0 {
        law_search_pattern_sound(tiles);
        assert(decomposes(res[0], tile_faces(tiles).to_multiset()));
    }
}

// ----- following one pattern through the table -----

/// Two patterns that fit the same state hold the same number of tiles; so
/// where one is empty, so is the other.
pub(crate) proof fn lemma_fits_same_size(runs: Seq<(u8, nat)>, i: int, lv: int, q: int, p1: nat, p2: nat)
    requires
        fits(runs, i, lv, q, p1),
        fits(runs, i, lv, q, p2),
        p1 == 0,
    ensures
        p2 == 0,
{
    let rest = residual(runs, i, lv as nat, q as nat);
    let d1 = digits4(p1);
    let d2 = digits4(p2);
    let fs1 = choose|fs: Seq<u8>|
        #![trigger combs_tiles(d1, fs)]
        {
            &&& fs.len() == d1.len()
            &&& forall|t: int| 0 <= t < d1.len() ==> comb_well_formed(#[trigger] d1[t], fs[t])
            &&& combs_tiles(d1, fs).add(rest) == prefix_tiles(runs, i as nat)
        };
    let fs2 = choose|fs: Seq<u8>|
        #![trigger combs_tiles(d2, fs)]
        {
            &&& fs.len() == d2.len()
            &&& forall|t: int| 0 <= t < d2.len() ==> comb_well_formed(#[trigger] d2[t], fs[t])
            &&& combs_tiles(d2, fs).add(rest) == prefix_tiles(runs, i as nat)
        };
    assert(d1 =~= Seq::<nat>::empty());
    assert forall|t: int| 0 <= t < d2.len() implies 1 <= #[trigger] d2[t] <= 3 by {
        assert(comb_well_formed(d2[t], fs2[t]));
    }
    lemma_combs_len(d2, fs2);
    lemma_pair_count_le(d2);
    lemma_digits4_index(p2, 0);
    assert(combs_tiles(d1, fs1) =~= Multiset::<u8>::empty());
    assert(combs_tiles(d1, fs1).add(rest).len() == rest.len());
    assert(combs_tiles(d2, fs2).add(rest).len() == combs_tiles(d2, fs2).len() + rest.len());
    assert(combs_tiles(d2, fs2).len() == 0);
    if p2 != 0 {
        assert(len4(p2) >= 1);
    }
}

proof fn lemma_pair_count_le(d: Seq<nat>)
    ensures
        pair_count(d) <= d.len(),
    decreases d.len(),
{
    if d.len() > 0 {
        lemma_pair_count_le(d.drop_first());
    }
}

/// A sequence code that has spilled into its seventh, partial slot.
pub open spec fn overflowed(c: nat) -> bool {
    c >= 0x1000_0000_0000_0000nat
}

/// A spilled sequence code still holds a pattern in its sixth slot.
pub open spec fn healthy(c: nat) -> bool {
    overflowed(c) ==> digit1024(c, 5) != 0
}

/// The code holds pattern `p` in one of its first six slots (the code 0
/// stands for the empty pattern).
pub open spec fn holds(c: nat, p: nat) -> bool {
    ||| c == 0 && p == 0
    ||| exists|s: nat| s < 6 && s < len1024(c) && #[trigger] digit1024(c, s) == p
}

/// State `j` of the row is reached, and its sequence has spilled or holds `p`.
pub open spec fn follows(row: Row, j: int, p: nat) -> bool {
    &&& row[j] is Some
    &&& overflowed(row[j]->0) || holds(row[j]->0, p)
}

pub(crate) proof fn lemma_overflow_len(c: nat)
    ensures
        overflowed(c) <==> len1024(c) >= 7,
        !overflowed(c) ==> len1024(c) <= 6,
{
    assert(pow1024(6) == 0x1000_0000_0000_0000nat) by {
        reveal_with_fuel(pow1024, 7);
    }
    lemma_len1024_bound(c, 6);
}

/// Truncating a code to 54 bits leaves the low four bits of its sixth slot.
pub(crate) proof fn lemma_trunc_top(c: nat)
    ensures
        digit1024(c % 0x40_0000_0000_0000nat, 5) == digit1024(c, 5) % 16,
        digit1024(c % 0x40_0000_0000_0000nat, 5) >= 1 ==> c % 0x40_0000_0000_0000nat >= 0x4_0000_0000_0000nat,
{
    let m: nat = c % 0x40_0000_0000_0000nat;
    let q: nat = c / 0x40_0000_0000_0000nat;
    let big: nat = 0x4_0000_0000_0000nat;
    assert(pow1024(5) == big) by {
        reveal_with_fuel(pow1024, 6);
    }
    assert(c == q * 0x40_0000_0000_0000nat + m);
    assert(m < 0x40_0000_0000_0000nat);
    assert(c == (q * 16) * big + m) by (nonlinear_arith)
        requires
            c == q * 0x40_0000_0000_0000nat + m,
            big == 0x4_0000_0000_0000nat,
    ;
    vstd::arithmetic::div_mod::lemma_fundamental_div_mod(m as int, big as int);
    assert(m % big < big) by {
        vstd::arithmetic::div_mod::lemma_mod_pos_bound(m as int, big as int);
    }
    assert(c == (q * 16 + m / big) * big + m % big) by (nonlinear_arith)
        requires
            c == (q * 16) * big + m,
            m == big * (m / big) + m % big,
    ;
    vstd::arithmetic::div_mod::lemma_fundamental_div_mod_converse(
        c as int,
        big as int,
        (q * 16 + m / big) as int,
        (m % big) as int,
    );
    assert(m / big < 16) by {
        vstd::arithmetic::div_mod::lemma_div_is_ordered(m as int, (0x40_0000_0000_0000nat - 1) as int, big as int);
    }
    vstd::arithmetic::div_mod::lemma_mod_multiples_vanish(q as int, (m / big) as int, 16);
    vstd::arithmetic::div_mod::lemma_mod_mod((c / big) as int, 16, 64);
    assert((m / big) % 1024 == m / big);
    assert(m / big >= 1 ==> m >= big) by {
        if m / big >= 1 {
            assert(m == big * (m / big) + m % big);
            assert(big * (m / big) >= big) by (nonlinear_arith)
                requires
                    m / big >= 1,
                    big > 0,
            ;
        }
    }
}

/// A pattern that fits a state and is not empty has a combination in slot 0,
/// so its low four bits are not all zero.
pub(crate) proof fn lemma_fitting_low_bits(runs: Seq<(u8, nat)>, i: int, lv: int, q: int, p: nat)
    requires
        fits(runs, i, lv, q, p),
        p != 0,
    ensures
        p % 16 != 0,
        p % 4 != 0,
{
    lemma_digits4_index(p, 0);
    crate::agari::digits::lemma_digit4_step(p, 0);
    assert(len4(p) >= 1);
    assert(digits4(p)[0] == p % 4);
    vstd::arithmetic::div_mod::lemma_mod_mod(p as int, 4, 4);
}

/// In a sound cell all patterns in the first six slots are empty, or none is.
pub(crate) proof fn lemma_slots_nonzero(runs: Seq<(u8, nat)>, i: int, j: int, c: nat, k1: nat, k2: nat)
    requires
        cell_ok(runs, i, j, c),
        k1 < 6,
        k1 < len1024(c),
        k2 < 6,
        k2 < len1024(c),
        digit1024(c, k1) != 0,
    ensures
        digit1024(c, k2) != 0,
{
    if digit1024(c, k2) == 0 {
        lemma_fits_same_size(runs, i, state_lv(j), state_q(j), digit1024(c, k2), digit1024(c, k1));
    }
}

/// Pushing a fitting pattern onto a sound cell keeps its code healthy.
pub(crate) proof fn lemma_cell_push_healthy(runs: Seq<(u8, nat)>, i: int, j: int, c: nat, p: nat)
    requires
        cell_ok(runs, i, j, c),
        fits(runs, i, state_lv(j), state_q(j), p),
        p < 1024,
    ensures
        healthy(seq_pushed_code(c, p)),
{
    let m: nat = c % 0x40_0000_0000_0000nat;
    let c2 = seq_pushed_code(c, p);
    assert(c2 == m * 1024 + p);
    assert(c2 / 1024 == m);
    if overflowed(c2) {
        assert(m >= 0x4_0000_0000_0000nat);
        assert(m <= c);
        assert(c >= pow1024(5)) by {
            assert(pow1024(5) == 0x4_0000_0000_0000nat) by {
                reveal_with_fuel(pow1024, 6);
            }
        }
        lemma_len1024_bound(c, 5);
        lemma_overflow_len(c);
        lemma_top_slot(c);
        assert(digit1024(c, 5) != 0) by {
            if !overflowed(c) {
                assert(len1024(c) == 6);
            }
        }
        lemma_slots_nonzero(runs, i, j, c, 5, 4);
        lemma_digit1024_step(c2, 4);
        lemma_digit_mod54(c, 4);
    }
}

/// Pushing a fitting pattern onto any state keeps a followed state followed.
#[verifier::spinoff_prover]
#[verifier::rlimit(40)]
pub(crate) proof fn lemma_push_keeps(runs: Seq<(u8, nat)>, i: int, row: Row, j: int, p: nat, j2: int, q: nat)
    requires
        row_ok(runs, i, row),
        0 <= j < 15,
        follows(row, j, p),
        0 <= j2 < 15,
        state_allowed(runs, i, j2),
        fits(runs, i, state_lv(j2), state_q(j2), q),
        q < 1024,
    ensures
        row_ok(runs, i, row_push(row, j2, q)),
        follows(row_push(row, j2, q), j, p),
{
    lemma_row_push(runs, i, row, j2, q);
    if j2 == j {
        let c = row[j]->0;
        assert(cell_ok(runs, i, j, c));
        let m: nat = c % 0x40_0000_0000_0000nat;
        let c2 = seq_pushed_code(c, q);
        assert(row_push(row, j2, q)[j] == Some(c2));
        assert(c2 == m * 1024 + q);
        assert(c2 / 1024 == m);
        assert(m <= c);
        lemma_overflow_len(c);
        lemma_overflow_len(c2);
        lemma_trunc_top(c);
        if c == 0 {
            assert(len1024(0) == 0);
            assert(p == 0);
            if q != 0 {
                lemma_fits_same_size(runs, i, state_lv(j), state_q(j), 0, q);
            }
            assert(c2 == 0);
        } else {
            lemma_top_slot(c);
            let top = (len1024(c) - 1) as nat;
            let k5: nat = if len1024(c) >= 6 { 5 } else { top };
            assert(k5 < 6 && k5 < len1024(c));
            assert(digit1024(c, k5) != 0) by {
                if len1024(c) >= 6 && k5 != top {
                    if overflowed(c) {
                    } else {
                        assert(top == 5);
                    }
                }
            }
            assert(digit1024(c, k5) != 0 ==> q != 0) by {
                if q == 0 {
                    lemma_fits_same_size(runs, i, state_lv(j), state_q(j), q, digit1024(c, k5));
                }
            }
            lemma_digit1024_step(c2, 0);
            if len1024(c) >= 6 {
                lemma_fitting_low_bits(runs, i, state_lv(j), state_q(j), digit1024(c, 5));
                vstd::arithmetic::div_mod::lemma_mod_mod(digit1024(c, 5) as int, 4, 4);
                assert(m >= 0x4_0000_0000_0000nat);
                assert(c2 >= 0x1000_0000_0000_0000nat);
            } else {
                assert(!overflowed(c));
                assert(c < pow1024(5)) by {
                    lemma_len1024_bound(c, 5);
                }
                assert(pow1024(5) == 0x4_0000_0000_0000nat) by {
                    reveal_with_fuel(pow1024, 6);
                }
                assert(m == c);
                assert(!overflowed(c2));
                let s0 = choose|s: nat| s < 6 && s < len1024(c) && #[trigger] digit1024(c, s) == p;
                assert(s0 < 5);
                lemma_digit1024_step(c2, s0);
                assert(digit1024(c2, s0 + 1) == digit1024(c, s0));
                assert(len1024(c2) == 1 + len1024(m));
                assert(holds(c2, p)) by {
                    assert(s0 + 1 < 6 && s0 + 1 < len1024(c2) && digit1024(c2, (s0 + 1) as nat) == p);
                }
            }
        }
    }
}

/// A fitting pattern pushed onto a state is then followed there.
pub(crate) proof fn lemma_push_adds(runs: Seq<(u8, nat)>, i: int, row: Row, j: int, p: nat)
    requires
        row_ok(runs, i, row),
        0 <= j < 15,
        state_allowed(runs, i, j),
        fits(runs, i, state_lv(j), state_q(j), p),
        p < 1024,
    ensures
        row_ok(runs, i, row_push(row, j, p)),
        follows(row_push(row, j, p), j, p),
{
    lemma_row_push(runs, i, row, j, p);
    let c = cell_code(row, j);
    let c2 = seq_pushed_code(c, p);
    assert(row_push(row, j, p)[j] == Some(c2));
    let m: nat = c % 0x40_0000_0000_0000nat;
    assert(c2 == m * 1024 + p);
    lemma_digit1024_step(c2, 0);
    if !overflowed(c2) {
        if c2 == 0 {
            assert(p == 0);
        } else {
            lemma_digits1024_index(c2, 0);
            assert(digit1024(c2, 0) == p);
            assert(holds(c2, p)) by {
                assert(0 < 6 && 0 < len1024(c2) && digit1024(c2, 0nat) == p);
            }
        }
    }
}

/// Pushing fitting patterns one by one onto a state keeps a followed state
/// followed (`u < 0`), or follows the pattern `ps[u]` there.
pub(crate) proof fn lemma_push_each_follow(
    runs: Seq<(u8, nat)>,
    i: int,
    row: Row,
    j: int,
    ps: Seq<nat>,
    jf: int,
    p: nat,
    u: int,
)
    requires
        row_ok(runs, i, row),
        0 <= j < 15,
        state_allowed(runs, i, j),
        forall|t: int| 0 <= t < ps.len() ==> fits(runs, i, state_lv(j), state_q(j), #[trigger] ps[t]) && ps[t] < 1024,
        0 <= jf < 15,
        u < 0 ==> follows(row, jf, p),
        u >= 0 ==> u < ps.len() && jf == j && p == ps[u],
    ensures
        row_ok(runs, i, push_each(row, j, ps)),
        follows(push_each(row, j, ps), jf, p),
    decreases ps.len(),
{
    if ps.len() > 0 {
        let pl = ps.drop_last();
        assert forall|t: int| 0 <= t < pl.len() implies fits(runs, i, state_lv(j), state_q(j), #[trigger] pl[t])
            && pl[t] < 1024 by {
            assert(pl[t] == ps[t]);
        }
        if u == ps.len() - 1 {
            lemma_push_each(runs, i, row, j, pl);
            lemma_push_adds(runs, i, push_each(row, j, pl), j, ps.last());
        } else {
            if u >= 0 {
                assert(pl[u] == ps[u]);
            }
            lemma_push_each_follow(runs, i, row, j, pl, jf, p, u);
            lemma_push_keeps(runs, i, push_each(row, j, pl), jf, p, j, ps.last());
        }
    }
}

/// Extending each passed-on pattern by one combination keeps a followed
/// state followed (`u < 0`), or follows the extension of `ps[u]`.
#[verifier::spinoff_prover]
#[verifier::rlimit(40)]
pub(crate) proof fn lemma_push_cat_each_follow(
    runs: Seq<(u8, nat)>,
    i: int,
    row: Row,
    ps: Seq<nat>,
    cate: MJCombCategory,
    lv: nat,
    m: nat,
    j: int,
    jf: int,
    p: nat,
    u: int,
)
    requires
        row_ok(runs, i, row),
        cate == MJCombCategory::Tuitu || cate == MJCombCategory::Koutu,
        m >= (if cate == MJCombCategory::Tuitu { 2nat } else { 3nat }),
        0 <= j < 15,
        state_lv(j) == lv,
        state_q(j) == m - (if cate == MJCombCategory::Tuitu { 2nat } else { 3nat }),
        state_allowed(runs, i, j),
        forall|t: int| 0 <= t < ps.len() ==> fits(runs, i, lv as int, m as int, #[trigger] ps[t]) && ps[t] < 1024,
        0 <= jf < 15,
        u < 0 ==> follows(row, jf, p),
        u >= 0 ==> u < ps.len() && jf == j && p == ps[u] * 4 + comb_code(cate) && pushes_once(ps[u], cate),
    ensures
        row_ok(runs, i, push_cat_each(row, j, ps, cate, 1)),
        u < ps.len() ==> follows(push_cat_each(row, j, ps, cate, 1), jf, p),
    decreases ps.len(),
{
    if ps.len() > 0 {
        let pl = ps.drop_last();
        assert forall|t: int| 0 <= t < pl.len() implies fits(runs, i, lv as int, m as int, #[trigger] pl[t]) && pl[t]
            < 1024 by {
            assert(pl[t] == ps[t]);
        }
        lemma_push_cat_each(runs, i, row, pl, cate, lv, m, j);
        let row1 = push_cat_each(row, j, pl, cate, 1);
        let q = ps.last();
        let r = runs[i].0;
        let size: nat = if cate == MJCombCategory::Tuitu { 2 } else { 3 };
        let e = comb_code(cate);
        let u2: int = if u == ps.len() - 1 { -1 } else { u };
        if u >= 0 && u < ps.len() - 1 {
            assert(pl[u] == ps[u]);
        }
        if u != ps.len() - 1 {
            lemma_push_cat_each_follow(runs, i, row, pl, cate, lv, m, j, jf, p, u2);
        }
        lemma_residual_split(runs, i, lv, m, size);
        lemma_comb_tiles_copies(r);
        assert(residual(runs, i, lv, m) =~= residual(runs, i, lv, (m - size) as nat).add(comb_tiles(e, r)));
        if pushes_once(q, cate) {
            if cate == MJCombCategory::Tuitu {
                lemma_no_tuitu(q);
            }
            lemma_fits_push(runs, i, q, e, r, residual(runs, i, lv, (m - size) as nat));
            assert(pushed_code(q, cate) == q * 4 + e);
            assert(pushed_times(q, cate, 1) == pushed_code(q, cate)) by {
                assert(pushed_times(q, cate, 0) == q);
            }
            assert(push_repeat(row1, j, q, cate, 1) == row_push(row1, j, q * 4 + e)) by {
                assert(push_repeat(row1, j, q, cate, 0) == row1);
            }
            assert(push_cat_each(row, j, ps, cate, 1) == row_push(row1, j, q * 4 + e));
            if u == ps.len() - 1 {
                lemma_push_adds(runs, i, row1, j, q * 4 + e);
            } else if u < ps.len() {
                lemma_push_keeps(runs, i, row1, jf, p, j, q * 4 + e);
            } else {
                lemma_row_push(runs, i, row1, j, q * 4 + e);
            }
        } else {
            assert(push_cat_each(row, j, ps, cate, 1) == row1);
        }
    } else {
        assert(push_cat_each(row, j, ps, cate, 1) == row);
    }
}

/// The state-0 step keeps a followed state followed.
pub(crate) proof fn lemma_update_zero_follow_keep(
    runs: Seq<(u8, nat)>,
    i: int,
    row: Row,
    c: nat,
    l: u8,
    r: u8,
    m: int,
    lv: int,
    jf: int,
    p: nat,
)
    requires
        0 <= i < runs.len(),
        row_ok(runs, i, row),
        r == runs[i].0,
        0 <= lv,
        0 <= m,
        lv + m <= 4,
        lv > 0 ==> i > 0 && face_is_prev(runs[i - 1].0, r),
        forall|t: int| 0 <= t < at_least(c).len() ==> fits(runs, i, lv, m, #[trigger] at_least(c)[t]) && at_least(c)[t] < 1024,
        0 <= jf < 15,
        follows(row, jf, p),
    ensures
        row_ok(runs, i, update(row, c, 0, l, r, m, lv)),
        follows(update(row, c, 0, l, r, m, lv), jf, p),
{
    let b = block_base(lv);
    let ps = at_least(c);
    lemma_state_of(lv, m);
    assert(state_allowed(runs, i, b + m));
    lemma_push_each_follow(runs, i, row, b + m, ps, jf, p, -1);
    let row1 = push_each(row, b + m, ps);
    if m == 2 {
        lemma_state_of(lv, 0);
        lemma_push_cat_each_follow(runs, i, row1, ps, MJCombCategory::Tuitu, lv as nat, m as nat, b, jf, p, -1);
    } else if m == 3 {
        lemma_state_of(lv, 1);
        lemma_state_of(lv, 0);
        lemma_push_cat_each_follow(runs, i, row1, ps, MJCombCategory::Tuitu, lv as nat, m as nat, b + 1, jf, p, -1);
        let row2 = push_cat_each(row1, b + 1, ps, MJCombCategory::Tuitu, 1);
        lemma_push_cat_each_follow(runs, i, row2, ps, MJCombCategory::Koutu, lv as nat, m as nat, b, jf, p, -1);
    } else if m == 4 {
        lemma_state_of(lv, 2);
        lemma_state_of(lv, 1);
        lemma_push_cat_each_follow(runs, i, row1, ps, MJCombCategory::Tuitu, lv as nat, m as nat, b + 2, jf, p, -1);
        let row2 = push_cat_each(row1, b + 2, ps, MJCombCategory::Tuitu, 1);
        lemma_push_cat_each_follow(runs, i, row2, ps, MJCombCategory::Koutu, lv as nat, m as nat, b + 1, jf, p, -1);
    }
}

/// The pattern that the state-0 step makes of `q` when it leaves `s`
/// singles, a three of a kind (`k`) or a pair (`t`).
pub open spec fn zero_step_code(q: nat, k: int, t: int) -> nat {
    if t == 1 {
        q * 4 + 3
    } else if k == 1 {
        q * 4 + 2
    } else {
        q
    }
}

/// The state-0 step follows what it makes of the carried pattern `q` in the
/// state with `s` singles.
#[verifier::spinoff_prover]
#[verifier::rlimit(40)]
pub(crate) proof fn lemma_update_zero_follow_add(
    runs: Seq<(u8, nat)>,
    i: int,
    row: Row,
    c: nat,
    l: u8,
    r: u8,
    m: int,
    lv: int,
    u: int,
    s: int,
    k: int,
    t: int,
)
    requires
        0 <= i < runs.len(),
        row_ok(runs, i, row),
        r == runs[i].0,
        0 <= lv,
        0 <= m,
        lv + m <= 4,
        lv > 0 ==> i > 0 && face_is_prev(runs[i - 1].0, r),
        forall|t: int| 0 <= t < at_least(c).len() ==> fits(runs, i, lv, m, #[trigger] at_least(c)[t]) && at_least(c)[t] < 1024,
        0 <= u < at_least(c).len(),
        0 <= s,
        0 <= k <= 1,
        0 <= t <= 1,
        m == s + 3 * k + 2 * t,
        t == 1 ==> pushes_once(at_least(c)[u], MJCombCategory::Tuitu),
        k == 1 ==> pushes_once(at_least(c)[u], MJCombCategory::Koutu),
    ensures
        row_ok(runs, i, update(row, c, 0, l, r, m, lv)),
        follows(update(row, c, 0, l, r, m, lv), block_base(lv) + s, zero_step_code(at_least(c)[u], k, t)),
{
    let b = block_base(lv);
    let ps = at_least(c);
    let q = ps[u];
    let target = b + s;
    let pz = zero_step_code(q, k, t);
    lemma_state_of(lv, m);
    lemma_state_of(lv, s);
    assert(state_allowed(runs, i, b + m));
    let row1 = push_each(row, b + m, ps);
    if k == 0 && t == 0 {
        lemma_push_each_follow(runs, i, row, b + m, ps, target, pz, u);
    } else {
        lemma_push_each(runs, i, row, b + m, ps);
    }
    if m == 2 {
        lemma_state_of(lv, 0);
        let uu = if t == 1 { u } else { -1 };
        lemma_push_cat_each_follow(runs, i, row1, ps, MJCombCategory::Tuitu, lv as nat, m as nat, b, target, pz, uu);
    } else if m == 3 {
        lemma_state_of(lv, 1);
        lemma_state_of(lv, 0);
        let u1 = if t == 1 { u } else { -1 };
        let u2 = if k == 1 { u } else { -1 };
        if t == 1 {
            lemma_push_cat_each_follow(runs, i, row1, ps, MJCombCategory::Tuitu, lv as nat, m as nat, b + 1, target, pz, u1);
        } else {
            lemma_push_cat_each(runs, i, row1, ps, MJCombCategory::Tuitu, lv as nat, m as nat, b + 1);
            if k == 0 {
                lemma_push_cat_each_follow(runs, i, row1, ps, MJCombCategory::Tuitu, lv as nat, m as nat, b + 1, target, pz, -1);
            }
        }
        let row2 = push_cat_each(row1, b + 1, ps, MJCombCategory::Tuitu, 1);
        if k == 1 {
            lemma_push_cat_each_follow(runs, i, row2, ps, MJCombCategory::Koutu, lv as nat, m as nat, b, target, pz, u2);
        } else {
            lemma_push_cat_each_follow(runs, i, row2, ps, MJCombCategory::Koutu, lv as nat, m as nat, b, target, pz, -1);
        }
    } else if m == 4 {
        lemma_state_of(lv, 2);
        lemma_state_of(lv, 1);
        if t == 1 {
            lemma_push_cat_each_follow(runs, i, row1, ps, MJCombCategory::Tuitu, lv as nat, m as nat, b + 2, target, pz, u);
        } else {
            lemma_push_cat_each(runs, i, row1, ps, MJCombCategory::Tuitu, lv as nat, m as nat, b + 2);
            if k == 0 {
                lemma_push_cat_each_follow(runs, i, row1, ps, MJCombCategory::Tuitu, lv as nat, m as nat, b + 2, target, pz, -1);
            }
        }
        let row2 = push_cat_each(row1, b + 2, ps, MJCombCategory::Tuitu, 1);
        if k == 1 {
            lemma_push_cat_each_follow(runs, i, row2, ps, MJCombCategory::Koutu, lv as nat, m as nat, b + 1, target, pz, u);
        } else {
            lemma_push_cat_each_follow(runs, i, row2, ps, MJCombCategory::Koutu, lv as nat, m as nat, b + 1, target, pz, -1);
        }
    }
}

/// The pattern code that following the split gives after run `i`, the
/// combination completed last in slot 0: the runs of three faces that end at
/// run `i`, then its three of a kind, then its pair.
pub open spec fn split_code(split: Split, i: nat) -> nat
    decreases i,
{
    let before = if i == 0 {
        0
    } else {
        pushed_times(split_code(split, (i - 1) as nat), MJCombCategory::Shuntu, starts(split, i - 2))
    };
    let with_k = if split[i as int].1 >= 1 {
        pushed_code(before, MJCombCategory::Koutu)
    } else {
        before
    };
    if split[i as int].2 >= 1 {
        pushed_code(with_k, MJCombCategory::Tuitu)
    } else {
        with_k
    }
}

/// A pattern held by a sound cell of at most six slots is among those it
/// passes on.
pub(crate) proof fn lemma_held_passed_on(runs: Seq<(u8, nat)>, i: int, j: int, c: nat, p: nat) -> (u: int)
    requires
        cell_ok(runs, i, j, c),
        len1024(c) <= 6,
        holds(c, p),
    ensures
        0 <= u < at_least(c).len(),
        at_least(c)[u] == p,
{
    let d = digits1024(c);
    lemma_digits1024_index(c, 0);
    lemma_take_while_entries(d);
    if c == 0 && p == 0 {
        assert(d =~= Seq::<nat>::empty());
        0
    } else {
        let s = choose|s: nat| s < 6 && s < len1024(c) && #[trigger] digit1024(c, s) == p;
        lemma_digits1024_index(c, s);
        if p == 0 {
            lemma_digits1024_index(c, 0);
            if digit1024(c, 0) != 0 {
                lemma_slots_nonzero(runs, i, j, c, 0, s);
            }
            assert(d[0] == 0);
            assert(take_while_nonzero(d) =~= Seq::<nat>::empty());
            0
        } else {
            assert forall|t: int| 0 <= t < d.len() implies #[trigger] d[t] != 0 by {
                lemma_digits1024_index(c, t as nat);
                lemma_slots_nonzero(runs, i, j, c, s, t as nat);
            }
            lemma_take_while_all(d);
            assert(d[s as int] == p);
            s as int
        }
    }
}

/// A step from any state keeps a followed state followed.
pub(crate) proof fn lemma_update_follow_keep(runs: Seq<(u8, nat)>, i: int, row: Row, c: nat, j: int, jf: int, p: nat)
    requires
        1 <= i < runs.len(),
        row_ok(runs, i, row),
        0 <= j <= 14,
        cell_ok(runs, i - 1, j, c),
        len1024(c) <= 6,
        runs[i].1 <= 4,
        prefix_count(runs, i as nat) <= 14,
        0 <= jf < 15,
        follows(row, jf, p),
    ensures
        row_ok(runs, i, update(row, c, j, runs[i - 1].0, runs[i].0, runs[i].1 as int, 0)),
        follows(update(row, c, j, runs[i - 1].0, runs[i].0, runs[i].1 as int, 0), jf, p),
{
    let l = runs[i - 1].0;
    let r = runs[i].0;
    let n = runs[i].1 as int;
    lemma_update_unfold(row, c, j, l, r, n);
    if carries(l, r, n, j) {
        lemma_carried_fit(runs, i, c, j);
        lemma_update_zero_follow_keep(
            runs,
            i,
            row,
            carried_code(c, j),
            l,
            r,
            n - state_q(j) - state_lv(j),
            state_q(j),
            jf,
            p,
        );
    }
}

pub(crate) proof fn lemma_next_row_follow(runs: Seq<(u8, nat)>, i: int, prev: Row, k: nat, k2: nat, jf: int, p: nat)
    requires
        1 <= i < runs.len(),
        row_ok(runs, i - 1, prev),
        forall|j: int| 0 <= j < 15 ==> (#[trigger] prev[j] matches Some(c) ==> len1024(c) <= 6),
        runs[i].1 <= 4,
        prefix_count(runs, i as nat) <= 14,
        k <= k2 <= 15,
        0 <= jf < 15,
        follows(next_row_upto(prev, runs[i - 1].0, runs[i].0, runs[i].1, k), jf, p),
    ensures
        follows(next_row_upto(prev, runs[i - 1].0, runs[i].0, runs[i].1, k2), jf, p),
    decreases k2,
{
    if k2 > k {
        lemma_next_row_follow(runs, i, prev, k, (k2 - 1) as nat, jf, p);
        let row = next_row_upto(prev, runs[i - 1].0, runs[i].0, runs[i].1, (k2 - 1) as nat);
        lemma_next_row(runs, i, prev, (k2 - 1) as nat);
        match prev[k2 - 1] {
            Some(c) => {
                lemma_update_follow_keep(runs, i, row, c, k2 - 1, jf, p);
            },
            None => {},
        }
    }
}

/// A pattern held by a sound state of row `i - 1` is carried into row `i`
/// with that state's open runs completed.
pub(crate) proof fn lemma_carried_holds(runs: Seq<(u8, nat)>, i: int, c: nat, j: int, pp: nat) -> (u: int)
    requires
        1 <= i < runs.len(),
        0 <= j <= 14,
        cell_ok(runs, i - 1, j, c),
        len1024(c) <= 6,
        holds(c, pp),
        runs[i].1 <= 4,
        prefix_count(runs, i as nat) <= 14,
        carries(runs[i - 1].0, runs[i].0, runs[i].1 as int, j),
    ensures
        0 <= u < at_least(carried_code(c, j)).len(),
        at_least(carried_code(c, j))[u] == pushed_times(pp, MJCombCategory::Shuntu, state_lv(j) as nat),
{
    let ps0 = at_least(c);
    let u0 = lemma_held_passed_on(runs, i - 1, j, c, pp);
    lemma_items_fit(runs, i - 1, j, c);
    if j < 5 {
        assert(pushed_times(pp, MJCombCategory::Shuntu, 0) == pp);
        u0
    } else {
        let lv_ = open_runs(j);
        let lq = state_q(j);
        assert(state_lv(j) == lv_);
        assert forall|t2: int| 0 <= t2 < ps0.len() implies len4(#[trigger] ps0[t2]) + lv_ <= 5 by {
            lemma_fits_len(runs, i - 1, ps0[t2], residual(runs, i - 1, lv_ as nat, lq as nat));
            lemma_residual_len(runs, i - 1, lv_ as nat, lq as nat);
            lemma_prefix_len(runs, i as nat);
            lemma_prefix_len(runs, (i - 1) as nat);
        }
        lemma_shuntu_items(ps0, lv_ as nat);
        let u = ps0.len() - 1 - u0;
        assert(ps0[ps0.len() - 1 - u] == pp);
        u
    }
}

/// The split's pattern after run `i` is what the state-0 step makes of its
/// pattern after run `i - 1` with the completed runs added.
pub(crate) proof fn lemma_split_code_step(split: Split, i: nat, q: nat)
    requires
        i >= 1,
        i < split.len(),
        q == pushed_times(split_code(split, (i - 1) as nat), MJCombCategory::Shuntu, starts(split, i - 2)),
        q < 1024,
        split[i as int].1 + split[i as int].2 <= 1,
    ensures
        split_code(split, i) == zero_step_code(q, split[i as int].1 as int, split[i as int].2 as int),
{
}

/// The step from the split's state after run `i - 1`, which holds the
/// split's pattern there, follows the split's pattern after run `i`.
#[verifier::spinoff_prover]
#[verifier::rlimit(40)]
pub(crate) proof fn lemma_update_follow_add(runs: Seq<(u8, nat)>, split: Split, i: int, row: Row, c: nat)
    requires
        split_ok(runs, split),
        1 <= i < runs.len(),
        row_ok(runs, i, row),
        cell_ok(runs, i - 1, split_state(split, i - 1), c),
        len1024(c) <= 6,
        holds(c, split_code(split, (i - 1) as nat)),
        forall|k: int| 0 <= k < runs.len() ==> (#[trigger] runs[k]).1 <= 4,
        prefix_count(runs, i as nat) <= 14,
    ensures
        follows(
            update(row, c, split_state(split, i - 1), runs[i - 1].0, runs[i].0, runs[i].1 as int, 0),
            split_state(split, i),
            split_code(split, i as nat),
        ),
{
    let l = runs[i - 1].0;
    let r = runs[i].0;
    let n = runs[i].1 as int;
    let s0 = starts(split, i - 2) as int;
    let s1 = split[i - 1].0 as int;
    let s2 = split[i].0 as int;
    let k = split[i].1 as int;
    let t = split[i].2 as int;
    let j = split_state(split, i - 1);
    assert(runs[i - 1].1 == split[i - 1].0 + starts(split, i - 2) + starts(split, i - 3) + 3 * split[i - 1].1 + 2
        * split[i - 1].2);
    assert(runs[i].1 == split[i].0 + starts(split, i - 1) + starts(split, i - 2) + 3 * split[i].1 + 2 * split[i].2);
    lemma_state_of(s0, s1);
    lemma_state_of(s1, s2);
    assert(state_lv(j) == s0 && state_q(j) == s1);
    if s1 > 0 {
        assert(face_is_prev(runs[i - 1].0, runs[i].0));
    }
    if s0 > 0 {
        assert(split[i - 2].0 > 0);
        assert(face_is_prev(runs[i - 1].0, runs[i].0));
    }
    assert(carries(l, r, n, j));
    lemma_update_unfold(row, c, j, l, r, n);
    lemma_carried_fit(runs, i, c, j);
    let m = n - s1 - s0;
    let pp = split_code(split, (i - 1) as nat);
    let u = lemma_carried_holds(runs, i, c, j, pp);
    let cc = carried_code(c, j);
    let q = at_least(cc)[u];
    assert(fits(runs, i, s1, m, q) && q < 1024);
    lemma_fits_len(runs, i, q, residual(runs, i, s1 as nat, m as nat));
    lemma_residual_len(runs, i, s1 as nat, m as nat);
    lemma_prefix_len(runs, i as nat);
    lemma_pairs_mono(split, (i + 1) as nat, split.len());
    assert(pairs_before(split, (i + 1) as nat) == pairs_before(split, i as nat) + t);
    if t == 1 {
        lemma_split_count(runs, split, i as nat);
        lemma_fits_pair_count(runs, i, s1, m, q, triples_before(split, (i + 1) as nat) - k, pairs_before(split, i as nat));
        lemma_pairless(q);
    }
    lemma_update_zero_follow_add(runs, i, row, cc, l, r, m, s1, u, s2, k, t);
    lemma_split_code_step(split, i as nat, q);
}

/// Every row of the table follows, in the split's state after its run, the
/// split's pattern there.
pub(crate) proof fn lemma_path_follow(runs: Seq<(u8, nat)>, split: Split, i: nat)
    requires
        split_ok(runs, split),
        i < runs.len(),
        forall|k: int| 0 <= k < runs.len() ==> (#[trigger] runs[k]).1 <= 4,
        prefix_count(runs, (runs.len() - 1) as nat) <= 14,
        table_fits(runs),
    ensures
        follows(dp_row(runs, i), split_state(split, i as int), split_code(split, i)),
    decreases i,
{
    if i == 0 {
        lemma_init_reach(runs, split);
        assert(runs[0].1 == split[0].0 + starts(split, -1) + starts(split, -2) + 3 * split[0].1 + 2 * split[0].2);
        assert(pairs_before(split, 0) == 0);
        assert(pairs_before(split, 1) == split[0].2);
        lemma_pairs_mono(split, 1, split.len());
        assert(pushed_times(0, MJCombCategory::Shuntu, 0) == 0);
        let c = init_row(runs[0].1)[split_state(split, 0)]->0;
        let pc = split_code(split, 0);
        assert(digit1024(3, 0) == 3 && len1024(3) == 1 && digit1024(2, 0) == 2 && len1024(2) == 1) by {
            reveal_with_fuel(len1024, 3);
            lemma_digit1024_step(3, 0);
            lemma_digit1024_step(2, 0);
        }
        if pc != 0 {
            assert(holds(c, pc)) by {
                assert(0 < 6 && 0 < len1024(c) && digit1024(c, 0nat) == pc);
            }
        }
    } else {
        lemma_path_follow(runs, split, (i - 1) as nat);
        let prev = dp_row(runs, (i - 1) as nat);
        let jp = split_state(split, i - 1);
        let j = split_state(split, i as int);
        let l = runs[i - 1].0;
        let r = runs[i as int].0;
        let n = runs[i as int].1;
        assert(runs[i - 1].1 == split[i - 1].0 + starts(split, i - 2) + starts(split, i - 3) + 3 * split[i - 1].1 + 2
            * split[i - 1].2);
        assert(runs[i as int].1 == split[i as int].0 + starts(split, i - 1) + starts(split, i - 2) + 3
            * split[i as int].1 + 2 * split[i as int].2);
        lemma_state_of(starts(split, i - 2) as int, split[i - 1].0 as int);
        lemma_state_of(split[i - 1].0 as int, split[i as int].0 as int);
        let c = prev[jp]->0;
        lemma_dp_row(runs, (i - 1) as nat);
        assert(cell_ok(runs, i - 1, jp, c));
        assert(len1024(c) <= 6) by {
            assert(dp_row(runs, (i - 1) as nat)[jp] matches Some(c2) ==> len1024(c2) <= 6);
        }
        lemma_overflow_len(c);
        assert forall|j2: int| 0 <= j2 < 15 implies (#[trigger] prev[j2] matches Some(c2) ==> len1024(c2) <= 6) by {
            assert(dp_row(runs, (i - 1) as nat)[j2] == prev[j2]);
        }
        lemma_prefix_count_mono(runs, i, (runs.len() - 1) as nat);
        let row0 = next_row_upto(prev, l, r, n, jp as nat);
        lemma_next_row(runs, i as int, prev, jp as nat);
        assert(next_row_upto(prev, l, r, n, (jp + 1) as nat) == update(row0, c, jp, l, r, n as int, 0));
        lemma_update_follow_add(runs, split, i as int, row0, c);
        lemma_next_row_follow(runs, i as int, prev, (jp + 1) as nat, 15, j, split_code(split, i));
    }
}

/// The search lists every split of the hand: its pattern, in the order in
/// which the combinations are completed (by the face of their last tile, a
/// run of three faces before a three of a kind or pair completed at the same
/// face), is among the results. Stated for runs of rising faces with one to
/// four copies each and at most 14 tiles in all, on which no sequence of the
/// search gathers more than six patterns.
pub proof fn law_search_lists_every_split(runs: Seq<(u8, nat)>, split: Split)
    requires
        runs.len() >= 1,
        forall|k: int| 0 <= k < runs.len() ==> 1 <= (#[trigger] runs[k]).1 <= 4,
        prefix_count(runs, (runs.len() - 1) as nat) <= 14,
        table_fits(runs),
        split_ok(runs, split),
    ensures
        search_result(runs).contains(reversed_code(split_code(split, (runs.len() - 1) as nat))),
{
    let last = (runs.len() - 1) as nat;
    assert forall|k: int| 0 <= k < runs.len() implies (#[trigger] runs[k]).1 <= 4 by {
        assert(1 <= runs[k].1 <= 4);
    }
    lemma_path_follow(runs, split, last);
    assert(split[last as int].0 == 0);
    if last > 0 {
        assert(split[last - 1].0 == 0);
    }
    assert(split_state(split, last as int) == 0);
    lemma_split_result(runs, split);
    lemma_dp_row(runs, last);
    let row = dp_row(runs, last);
    let c = row[0]->0;
    let pc = split_code(split, last);
    assert(cell_ok(runs, last as int, 0, c));
    assert(len1024(c) <= 6) by {
        assert(dp_row(runs, last)[0] matches Some(c2) ==> len1024(c2) <= 6);
    }
    lemma_overflow_len(c);
    // the cell is not empty (the result is not), so all its slots hold patterns
    assert(c != 0) by {
        if c == 0 {
            assert(back_items(0) =~= Seq::<nat>::empty()) by {
                assert(digits1024(0) =~= Seq::<nat>::empty());
                assert(digits1024(0).reverse() =~= Seq::<nat>::empty());
            }
        }
    }
    lemma_top_slot(c);
    let top = (len1024(c) - 1) as nat;
    let s = choose|s: nat| s < 6 && s < len1024(c) && #[trigger] digit1024(c, s) == pc;
    let d = digits1024(c);
    lemma_digits1024_index(c, 0);
    assert forall|t: int| 0 <= t < d.len() implies #[trigger] d[t] != 0 by {
        lemma_digits1024_index(c, t as nat);
        lemma_slots_nonzero(runs, last as int, 0, c, top, t as nat);
    }
    assert forall|t: int| 0 <= t < d.reverse().len() implies #[trigger] d.reverse()[t] != 0 by {
        assert(d.reverse()[t] == d[d.len() - 1 - t]);
    }
    lemma_take_while_all(d.reverse());
    lemma_digits1024_index(c, s);
    let ix = d.len() - 1 - s;
    assert(back_items(c)[ix] == pc);
    let res = search_result(runs);
    assert(res == back_items(c).map_values(|p: nat| reversed_code(p)));
    assert(res[ix] == reversed_code(pc));
}

// ----- every result is a split -----

/// `sp` splits runs `0..=i` up to what it leaves open after run `i`: each
/// run's copies are accounted for, a run of three faces starts only where
/// the following runs seen so far have the next faces, there is at most one
/// pair, and each pattern it gives along the way has at most five slots and
/// as many pairs as the split so far.
pub open spec fn psplit_ok(runs: Seq<(u8, nat)>, sp: Split, i: int) -> bool {
    &&& 0 <= i < runs.len()
    &&& sp.len() == i + 1
    &&& forall|u: int|
        0 <= u <= i ==> #[trigger] runs[u].1 == sp[u].0 + starts(sp, u - 1) + starts(sp, u - 2) + 3 * sp[u].1 + 2
            * sp[u].2
    &&& forall|u: int|
        #![trigger sp[u]]
        0 <= u <= i && sp[u].0 > 0 ==> (u + 1 <= i ==> face_is_prev(runs[u].0, runs[u + 1].0)) && (u + 2 <= i
            ==> face_is_prev(runs[u + 1].0, runs[u + 2].0))
    &&& pairs_before(sp, (i + 1) as nat) <= 1
    &&& forall|u: nat|
        u <= i ==> len4(#[trigger] split_code(sp, u)) <= 5 && pair_count(digits4(split_code(sp, u)))
            == pairs_before(sp, u + 1)
}

/// Pattern `p` is what some split of runs `0..=i` gives, leaving state `j`.
pub open spec fn splits_to(runs: Seq<(u8, nat)>, i: int, j: int, p: nat) -> bool {
    exists|sp: Split| #[trigger] psplit_ok(runs, sp, i) && split_state(sp, i) == j && split_code(sp, i as nat) == p
}

pub(crate) proof fn lemma_split_code_prefix(a: Split, b: Split, i: nat)
    requires
        i < a.len(),
        i < b.len(),
        forall|u: int| 0 <= u <= i ==> a[u] == b[u],
    ensures
        split_code(a, i) == split_code(b, i),
    decreases i,
{
    if i > 0 {
        lemma_split_code_prefix(a, b, (i - 1) as nat);
        assert(starts(a, i - 2) == starts(b, i - 2));
    }
}

pub(crate) proof fn lemma_pairs_prefix(a: Split, b: Split, i: nat)
    requires
        i <= a.len(),
        i <= b.len(),
        forall|u: int| 0 <= u < i ==> a[u] == b[u],
    ensures
        pairs_before(a, i) == pairs_before(b, i),
    decreases i,
{
    if i > 0 {
        lemma_pairs_prefix(a, b, (i - 1) as nat);
    }
}

pub(crate) proof fn lemma_pair_count_ones(lv: nat, d: Seq<nat>)
    ensures
        pair_count(Seq::new(lv, |t: int| 1nat) + d) == pair_count(d),
    decreases lv,
{
    if lv > 0 {
        let s = Seq::new(lv, |t: int| 1nat) + d;
        assert(s.drop_first() =~= Seq::new((lv - 1) as nat, |t: int| 1nat) + d);
        lemma_pair_count_ones((lv - 1) as nat, d);
    } else {
        assert(Seq::new(0, |t: int| 1nat) + d =~= d);
    }
}

/// A split of runs `0..i-1` extended by run `i`, its completed runs of three
/// faces added to its pattern `q`, then `s` singles, `k` three of a kinds and
/// `t` pairs, splits runs `0..=i`.
#[verifier::spinoff_prover]
#[verifier::rlimit(40)]
pub(crate) proof fn lemma_psplit_extend(runs: Seq<(u8, nat)>, sp: Split, i: int, s: nat, k: nat, t: nat)
    requires
        1 <= i < runs.len(),
        psplit_ok(runs, sp, i - 1),
        len4(split_code(sp, (i - 1) as nat)) + starts(sp, i - 2) <= 5,
        runs[i].1 == s + sp[i - 1].0 + starts(sp, i - 2) + 3 * k + 2 * t,
        k <= 1,
        t <= 1,
        k + t <= 1,
        sp[i - 1].0 > 0 || starts(sp, i - 2) > 0 ==> face_is_prev(runs[i - 1].0, runs[i].0),
        t == 1 ==> pushes_once(
            pushed_times(split_code(sp, (i - 1) as nat), MJCombCategory::Shuntu, starts(sp, i - 2)),
            MJCombCategory::Tuitu,
        ),
        k == 1 ==> pushes_once(
            pushed_times(split_code(sp, (i - 1) as nat), MJCombCategory::Shuntu, starts(sp, i - 2)),
            MJCombCategory::Koutu,
        ),
    ensures
        psplit_ok(runs, sp.push((s, k, t)), i),
        split_state(sp.push((s, k, t)), i) == block_base(sp[i - 1].0 as int) + s,
        split_code(sp.push((s, k, t)), i as nat) == zero_step_code(
            pushed_times(split_code(sp, (i - 1) as nat), MJCombCategory::Shuntu, starts(sp, i - 2)),
            k as int,
            t as int,
        ),
{
    let sp2 = sp.push((s, k, t));
    let pp = split_code(sp, (i - 1) as nat);
    let lv0 = starts(sp, i - 2);
    let q = pushed_times(pp, MJCombCategory::Shuntu, lv0);
    assert forall|u: int| 0 <= u <= i - 1 implies sp2[u] == sp[u] by {
    }
    assert forall|u: int| #[trigger] starts(sp2, u) == if u == i { s } else { starts(sp, u) } by {
    }
    lemma_split_code_prefix(sp, sp2, (i - 1) as nat);
    lemma_pairs_prefix(sp, sp2, i as nat);
    assert(pairs_before(sp2, (i + 1) as nat) == pairs_before(sp, i as nat) + t);
    // the new pattern
    lemma_pushed_times_run(pp, lv0);
    let dq = digits4(q);
    assert(dq == Seq::new(lv0, |t2: int| 1nat) + digits4(pp));
    lemma_pair_count_ones(lv0, digits4(pp));
    assert(pair_count(dq) == pairs_before(sp, i as nat));
    assert(q < 1024);
    let code = zero_step_code(q, k as int, t as int);
    assert(split_code(sp2, i as nat) == code);
    if t == 1 {
        lemma_no_tuitu(q);
        lemma_digits4_push(q, 3);
        assert(pairs_before(sp, i as nat) == 0);
        assert(pair_count(seq![3nat] + dq) == 1 + pair_count((seq![3nat] + dq).drop_first())) by {
            assert((seq![3nat] + dq)[0] == 3);
        }
        assert((seq![3nat] + dq).drop_first() =~= dq);
    } else if k == 1 {
        lemma_digits4_push(q, 2);
        assert(pair_count(seq![2nat] + dq) == pair_count((seq![2nat] + dq).drop_first())) by {
            assert((seq![2nat] + dq)[0] == 2);
        }
        assert((seq![2nat] + dq).drop_first() =~= dq);
    }
    assert forall|u: nat| u <= i implies len4(#[trigger] split_code(sp2, u)) <= 5 && pair_count(
        digits4(split_code(sp2, u)),
    ) == pairs_before(sp2, u + 1) by {
        if u < i {
            lemma_split_code_prefix(sp, sp2, u);
            lemma_pairs_prefix(sp, sp2, u + 1);
            assert(len4(split_code(sp, u)) <= 5);
        }
    }
    assert forall|u: int| 0 <= u <= i implies #[trigger] runs[u].1 == sp2[u].0 + starts(sp2, u - 1) + starts(
        sp2,
        u - 2,
    ) + 3 * sp2[u].1 + 2 * sp2[u].2 by {
        if u < i {
            assert(runs[u].1 == sp[u].0 + starts(sp, u - 1) + starts(sp, u - 2) + 3 * sp[u].1 + 2 * sp[u].2);
        }
    }
    assert forall|u: int| #![trigger sp2[u]] 0 <= u <= i && sp2[u].0 > 0 implies (u + 1 <= i ==> face_is_prev(
        runs[u].0,
        runs[u + 1].0,
    )) && (u + 2 <= i ==> face_is_prev(runs[u + 1].0, runs[u + 2].0)) by {
        if u < i {
            assert(sp[u].0 > 0);
            if u == i - 2 {
                assert(starts(sp, i - 2) > 0);
            }
        }
    }
}

/// Every pattern in the first six slots of a cell (the empty pattern, for
/// code 0) is what some split gives in the cell's state.
pub open spec fn cell_split_ok(runs: Seq<(u8, nat)>, i: int, j: int, c: nat) -> bool {
    &&& c == 0 ==> splits_to(runs, i, j, 0)
    &&& forall|k: nat| k < 6 && k < len1024(c) ==> splits_to(runs, i, j, #[trigger] digit1024(c, k))
}

/// Every reached state of row `i` holds only what splits give there.
pub open spec fn row_split_ok(runs: Seq<(u8, nat)>, i: int, row: Row) -> bool {
    &&& row.len() == 15
    &&& forall|j: int| 0 <= j < 15 ==> (#[trigger] row[j] matches Some(c) ==> cell_split_ok(runs, i, j, c))
}

pub(crate) proof fn lemma_row_split_push(runs: Seq<(u8, nat)>, i: int, row: Row, j: int, p: nat)
    requires
        row_split_ok(runs, i, row),
        0 <= j < 15,
        splits_to(runs, i, j, p),
        p < 1024,
    ensures
        row_split_ok(runs, i, row_push(row, j, p)),
{
    let c = cell_code(row, j);
    let m: nat = c % 0x40_0000_0000_0000nat;
    let c2 = seq_pushed_code(c, p);
    assert(c2 == m * 1024 + p);
    assert(c2 / 1024 == m);
    assert(c2 % 1024 == p);
    lemma_digit1024_step(c2, 0);
    if row[j] is None {
        assert(c == 0);
        assert(c2 == p);
        assert forall|k: nat| k < 6 && k < len1024(c2) implies splits_to(runs, i, j, #[trigger] digit1024(c2, k)) by {
            if k > 0 {
                assert(pow1024(1) == 1024) by {
                    reveal_with_fuel(pow1024, 2);
                }
                lemma_len1024_bound(p, 1);
            }
        }
    } else {
        assert(cell_split_ok(runs, i, j, c));
        assert forall|k: nat| k < 6 && k < len1024(c2) implies splits_to(runs, i, j, #[trigger] digit1024(c2, k)) by {
            if k > 0 {
                lemma_digit1024_step(c2, (k - 1) as nat);
                lemma_digit_mod54(c, (k - 1) as nat);
                assert(digit1024(c2, k) == digit1024(c, (k - 1) as nat));
                assert(m <= c);
                assert(len1024(c2) == 1 + len1024(m));
                lemma_len_mono(m, c);
            }
        }
    }
    let row2 = row_push(row, j, p);
    assert forall|j2: int| 0 <= j2 < 15 implies (#[trigger] row2[j2] matches Some(c3) ==> cell_split_ok(runs, i, j2, c3)) by {
        if j2 != j {
            assert(row2[j2] == row[j2]);
        }
    }
}

pub(crate) proof fn lemma_push_each_split(runs: Seq<(u8, nat)>, i: int, row: Row, j: int, ps: Seq<nat>)
    requires
        row_split_ok(runs, i, row),
        0 <= j < 15,
        forall|t: int| 0 <= t < ps.len() ==> splits_to(runs, i, j, #[trigger] ps[t]) && ps[t] < 1024,
    ensures
        row_split_ok(runs, i, push_each(row, j, ps)),
    decreases ps.len(),
{
    if ps.len() > 0 {
        let pl = ps.drop_last();
        assert forall|t: int| 0 <= t < pl.len() implies splits_to(runs, i, j, #[trigger] pl[t]) && pl[t] < 1024 by {
            assert(pl[t] == ps[t]);
        }
        lemma_push_each_split(runs, i, row, j, pl);
        lemma_row_split_push(runs, i, push_each(row, j, pl), j, ps.last());
    }
}

pub(crate) proof fn lemma_push_cat_each_split(
    runs: Seq<(u8, nat)>,
    i: int,
    row: Row,
    j: int,
    ps: Seq<nat>,
    cate: MJCombCategory,
)
    requires
        row_split_ok(runs, i, row),
        0 <= j < 15,
        cate == MJCombCategory::Tuitu || cate == MJCombCategory::Koutu,
        forall|t: int|
            0 <= t < ps.len() && pushes_once(#[trigger] ps[t], cate) ==> splits_to(
                runs,
                i,
                j,
                ps[t] * 4 + comb_code(cate),
            ),
    ensures
        row_split_ok(runs, i, push_cat_each(row, j, ps, cate, 1)),
    decreases ps.len(),
{
    if ps.len() > 0 {
        let pl = ps.drop_last();
        assert forall|t: int| 0 <= t < pl.len() && pushes_once(#[trigger] pl[t], cate) implies splits_to(
            runs,
            i,
            j,
            pl[t] * 4 + comb_code(cate),
        ) by {
            assert(pl[t] == ps[t]);
        }
        lemma_push_cat_each_split(runs, i, row, j, pl, cate);
        let row1 = push_cat_each(row, j, pl, cate, 1);
        let q = ps.last();
        let e = comb_code(cate);
        if pushes_once(q, cate) {
            lemma_digits4_push(q, e);
            crate::agari::digits::lemma_len4_bound(q * 4 + e, 5);
            assert(crate::agari::digits::pow4(5) == 1024) by {
                reveal_with_fuel(crate::agari::digits::pow4, 6);
            }
            crate::agari::digits::lemma_len4_bound(q, 5);
            assert(pushed_code(q, cate) == q * 4 + e);
            assert(pushed_times(q, cate, 1) == pushed_code(q, cate)) by {
                assert(pushed_times(q, cate, 0) == q);
            }
            assert(push_repeat(row1, j, q, cate, 1) == row_push(row1, j, q * 4 + e)) by {
                assert(push_repeat(row1, j, q, cate, 0) == row1);
            }
            lemma_row_split_push(runs, i, row1, j, q * 4 + e);
        }
    }
}

/// Pattern `q` is what a split of runs `0..i-1` gives with its runs of three
/// faces that end at run `i` added, where that split leaves `lv` runs open
/// at run `i - 1` and `m` copies of run `i` for the state-0 step.
pub open spec fn carried_split(runs: Seq<(u8, nat)>, i: int, lv: int, m: int, q: nat) -> bool {
    exists|sp: Split|
        #[trigger] psplit_ok(runs, sp, i - 1) && sp[i - 1].0 == lv && runs[i].1 == m + lv + starts(sp, i - 2) && (lv
            > 0 || starts(sp, i - 2) > 0 ==> face_is_prev(runs[i - 1].0, runs[i].0)) && len4(split_code(sp, (i - 1) as nat))
            + starts(sp, i - 2) <= 5 && q == pushed_times(
            split_code(sp, (i - 1) as nat),
            MJCombCategory::Shuntu,
            starts(sp, i - 2),
        )
}

pub(crate) proof fn lemma_carried_split_extend(runs: Seq<(u8, nat)>, i: int, lv: int, m: int, q: nat, s: int, k: int, t: int)
    requires
        1 <= i < runs.len(),
        carried_split(runs, i, lv, m, q),
        0 <= lv,
        0 <= s,
        0 <= k <= 1,
        0 <= t <= 1,
        k + t <= 1,
        m == s + 3 * k + 2 * t,
        t == 1 ==> pushes_once(q, MJCombCategory::Tuitu),
        k == 1 ==> pushes_once(q, MJCombCategory::Koutu),
    ensures
        splits_to(runs, i, block_base(lv) + s, zero_step_code(q, k, t)),
{
    let sp = choose|sp: Split|
        #[trigger] psplit_ok(runs, sp, i - 1) && sp[i - 1].0 == lv && runs[i].1 == m + lv + starts(sp, i - 2) && (lv
            > 0 || starts(sp, i - 2) > 0 ==> face_is_prev(runs[i - 1].0, runs[i].0)) && len4(split_code(sp, (i - 1) as nat))
            + starts(sp, i - 2) <= 5 && q == pushed_times(
            split_code(sp, (i - 1) as nat),
            MJCombCategory::Shuntu,
            starts(sp, i - 2),
        );
    lemma_psplit_extend(runs, sp, i, s as nat, k as nat, t as nat);
    let sp2 = sp.push((s as nat, k as nat, t as nat));
    assert(psplit_ok(runs, sp2, i));
}

/// The state-0 step on carried patterns that splits give keeps a row holding
/// only what splits give.
pub(crate) proof fn lemma_update_zero_split(runs: Seq<(u8, nat)>, i: int, row: Row, c: nat, l: u8, r: u8, m: int, lv: int)
    requires
        1 <= i < runs.len(),
        row_split_ok(runs, i, row),
        0 <= lv,
        0 <= m,
        lv + m <= 4,
        forall|t: int|
            0 <= t < at_least(c).len() ==> carried_split(runs, i, lv, m, #[trigger] at_least(c)[t]) && at_least(c)[t]
                < 1024,
    ensures
        row_split_ok(runs, i, update(row, c, 0, l, r, m, lv)),
{
    let b = block_base(lv);
    let ps = at_least(c);
    lemma_state_of(lv, m);
    assert forall|t: int| 0 <= t < ps.len() implies splits_to(runs, i, b + m, #[trigger] ps[t]) && ps[t] < 1024 by {
        lemma_carried_split_extend(runs, i, lv, m, ps[t], m, 0, 0);
    }
    lemma_push_each_split(runs, i, row, b + m, ps);
    let row1 = push_each(row, b + m, ps);
    if m >= 2 {
        let jt = b + m - 2;
        assert forall|t: int| 0 <= t < ps.len() && pushes_once(#[trigger] ps[t], MJCombCategory::Tuitu) implies splits_to(
            runs,
            i,
            jt,
            ps[t] * 4 + comb_code(MJCombCategory::Tuitu),
        ) by {
            lemma_carried_split_extend(runs, i, lv, m, ps[t], m - 2, 0, 1);
        }
    }
    if m >= 3 {
        let jk = b + m - 3;
        assert forall|t: int| 0 <= t < ps.len() && pushes_once(#[trigger] ps[t], MJCombCategory::Koutu) implies splits_to(
            runs,
            i,
            jk,
            ps[t] * 4 + comb_code(MJCombCategory::Koutu),
        ) by {
            lemma_carried_split_extend(runs, i, lv, m, ps[t], m - 3, 1, 0);
        }
    }
    if m == 2 {
        lemma_push_cat_each_split(runs, i, row1, b, ps, MJCombCategory::Tuitu);
    } else if m == 3 {
        lemma_push_cat_each_split(runs, i, row1, b + 1, ps, MJCombCategory::Tuitu);
        let row2 = push_cat_each(row1, b + 1, ps, MJCombCategory::Tuitu, 1);
        lemma_push_cat_each_split(runs, i, row2, b, ps, MJCombCategory::Koutu);
    } else if m == 4 {
        lemma_push_cat_each_split(runs, i, row1, b + 2, ps, MJCombCategory::Tuitu);
        let row2 = push_cat_each(row1, b + 2, ps, MJCombCategory::Tuitu, 1);
        lemma_push_cat_each_split(runs, i, row2, b + 1, ps, MJCombCategory::Koutu);
    }
}

/// The patterns a cell passes on are what splits give in its state.
pub(crate) proof fn lemma_items_split(runs: Seq<(u8, nat)>, i: int, j: int, c: nat)
    requires
        cell_split_ok(runs, i, j, c),
        len1024(c) <= 6,
    ensures
        forall|t: int| 0 <= t < at_least(c).len() ==> splits_to(runs, i, j, #[trigger] at_least(c)[t]),
{
    let d = digits1024(c);
    lemma_take_while_entries(d);
    lemma_digits1024_index(c, 0);
    if front_items(c).len() == 0 {
        if c != 0 {
            lemma_digit1024_step(c, 0);
            assert(d[0] == digit1024(c, 0));
            assert(digit1024(c, 0nat) == 0);
            assert(splits_to(runs, i, j, digit1024(c, 0nat)));
        }
        assert(at_least(c) == seq![0nat]);
    } else {
        assert forall|t: int| 0 <= t < at_least(c).len() implies splits_to(runs, i, j, #[trigger] at_least(c)[t]) by {
            lemma_digits1024_index(c, t as nat);
            assert(at_least(c)[t] == digit1024(c, t as nat));
        }
    }
}

/// What a split gives in a state of row `i - 1`, carried into row `i` by
/// the step from that state.
pub(crate) proof fn lemma_carried_from_split(runs: Seq<(u8, nat)>, i: int, j: int, pp: nat, lv_: int, m: int)
    requires
        1 <= i < runs.len(),
        0 <= j <= 14,
        splits_to(runs, i - 1, j, pp),
        runs[i - 1].1 <= 4,
        carries(runs[i - 1].0, runs[i].0, runs[i].1 as int, j),
        lv_ == state_lv(j),
        m == runs[i].1 - state_q(j) - state_lv(j),
        len4(pp) + lv_ <= 5,
    ensures
        carried_split(runs, i, state_q(j), m, pushed_times(pp, MJCombCategory::Shuntu, lv_ as nat)),
{
    let sp = choose|sp: Split| #[trigger] psplit_ok(runs, sp, i - 1) && split_state(sp, i - 1) == j && split_code(sp, (i - 1) as nat) == pp;
    assert(runs[i - 1].1 == sp[i - 1].0 + starts(sp, i - 2) + starts(sp, i - 3) + 3 * sp[i - 1].1 + 2 * sp[i - 1].2);
    lemma_state_of(starts(sp, i - 2) as int, sp[i - 1].0 as int);
    assert(starts(sp, i - 2) == lv_);
    assert(sp[i - 1].0 == state_q(j));
    assert(psplit_ok(runs, sp, i - 1));
}

/// The step from a state of row `i - 1` holding only what splits give keeps
/// row `i` holding only what splits give.
#[verifier::spinoff_prover]
#[verifier::rlimit(40)]
pub(crate) proof fn lemma_update_split(runs: Seq<(u8, nat)>, i: int, row: Row, c: nat, j: int)
    requires
        1 <= i < runs.len(),
        row_split_ok(runs, i, row),
        0 <= j <= 14,
        cell_split_ok(runs, i - 1, j, c),
        cell_ok(runs, i - 1, j, c),
        len1024(c) <= 6,
        runs[i].1 <= 4,
        runs[i - 1].1 <= 4,
        prefix_count(runs, i as nat) <= 14,
    ensures
        row_split_ok(runs, i, update(row, c, j, runs[i - 1].0, runs[i].0, runs[i].1 as int, 0)),
{
    let l = runs[i - 1].0;
    let r = runs[i].0;
    let n = runs[i].1 as int;
    lemma_update_unfold(row, c, j, l, r, n);
    if carries(l, r, n, j) {
        lemma_carried_fit(runs, i, c, j);
        let m = n - state_q(j) - state_lv(j);
        let lv_ = state_lv(j);
        let cc = carried_code(c, j);
        let ps = at_least(cc);
        let ps0 = at_least(c);
        lemma_items_split(runs, i - 1, j, c);
        lemma_items_fit(runs, i - 1, j, c);
        lemma_prefix_len(runs, i as nat);
        lemma_prefix_len(runs, (i - 1) as nat);
        assert forall|u: int| 0 <= u < ps0.len() implies len4(#[trigger] ps0[u]) + lv_ <= 5 by {
            lemma_fits_len(runs, i - 1, ps0[u], residual(runs, i - 1, lv_ as nat, state_q(j) as nat));
            lemma_residual_len(runs, i - 1, lv_ as nat, state_q(j) as nat);
        }
        if j < 5 {
            assert forall|t: int| 0 <= t < ps.len() implies carried_split(runs, i, state_q(j), m, #[trigger] ps[t])
                && ps[t] < 1024 by {
                lemma_carried_from_split(runs, i, j, ps0[t], lv_, m);
                assert(pushed_times(ps0[t], MJCombCategory::Shuntu, 0) == ps0[t]);
            }
        } else {
            assert(open_runs(j) == lv_);
            lemma_shuntu_items(ps0, lv_ as nat);
            assert forall|t: int| 0 <= t < ps.len() implies carried_split(runs, i, state_q(j), m, #[trigger] ps[t])
                && ps[t] < 1024 by {
                let u = ps0.len() - 1 - t;
                lemma_carried_from_split(runs, i, j, ps0[u], lv_, m);
            }
        }
        lemma_update_zero_split(runs, i, row, cc, l, r, m, state_q(j));
    }
}

pub(crate) proof fn lemma_next_row_split(runs: Seq<(u8, nat)>, i: int, prev: Row, k: nat)
    requires
        1 <= i < runs.len(),
        row_split_ok(runs, i - 1, prev),
        row_ok(runs, i - 1, prev),
        forall|j: int| 0 <= j < 15 ==> (#[trigger] prev[j] matches Some(c) ==> len1024(c) <= 6),
        runs[i].1 <= 4,
        runs[i - 1].1 <= 4,
        prefix_count(runs, i as nat) <= 14,
        k <= 15,
    ensures
        row_split_ok(runs, i, next_row_upto(prev, runs[i - 1].0, runs[i].0, runs[i].1, k)),
    decreases k,
{
    if k == 0 {
        assert(row_split_ok(runs, i, empty_row()));
    } else {
        lemma_next_row_split(runs, i, prev, (k - 1) as nat);
        let row = next_row_upto(prev, runs[i - 1].0, runs[i].0, runs[i].1, (k - 1) as nat);
        match prev[k - 1] {
            Some(c) => {
                lemma_update_split(runs, i, row, c, k - 1);
            },
            None => {},
        }
    }
}

pub(crate) proof fn lemma_init_one(runs: Seq<(u8, nat)>, s: nat, k: nat, t: nat)
    requires
        runs.len() >= 1,
        runs[0].1 == s + 3 * k + 2 * t,
        k <= 1,
        t <= 1,
        k + t <= 1,
    ensures
        splits_to(runs, 0, s as int, zero_step_code(0, k as int, t as int)),
{
    let sp: Split = seq![(s, k, t)];
    assert(pairs_before(sp, 0) == 0);
    assert(pairs_before(sp, 1) == t);
    assert(pushed_times(0, MJCombCategory::Shuntu, 0) == 0);
    lemma_digits4_index(0, 0);
    lemma_digits4_push(0, 3);
    lemma_digits4_push(0, 2);
    assert(digits4(0) =~= Seq::<nat>::empty());
    assert(pair_count(Seq::<nat>::empty()) == 0);
    assert(pair_count(seq![3nat]) == 1) by {
        assert(seq![3nat].drop_first() =~= Seq::<nat>::empty());
        assert(seq![3nat][0] == 3);
    }
    assert(pair_count(seq![2nat]) == 0) by {
        assert(seq![2nat].drop_first() =~= Seq::<nat>::empty());
        assert(seq![2nat][0] == 2);
    }
    assert(seq![3nat] + digits4(0) =~= seq![3nat]);
    assert(seq![2nat] + digits4(0) =~= seq![2nat]);
    assert(split_code(sp, 0) == zero_step_code(0, k as int, t as int));
    assert forall|u: nat| u <= 0 implies len4(#[trigger] split_code(sp, u)) <= 5 && pair_count(
        digits4(split_code(sp, u)),
    ) == pairs_before(sp, u + 1) by {
    }
    assert(psplit_ok(runs, sp, 0));
}

pub(crate) proof fn lemma_init_split(runs: Seq<(u8, nat)>)
    requires
        runs.len() >= 1,
        runs[0].1 <= 4,
    ensures
        row_split_ok(runs, 0, init_row(runs[0].1)),
{
    let n = runs[0].1;
    let row = init_row(n);
    assert(digit1024(3, 0) == 3 && len1024(3) == 1 && digit1024(2, 0) == 2 && len1024(2) == 1) by {
        reveal_with_fuel(len1024, 3);
        lemma_digit1024_step(3, 0);
        lemma_digit1024_step(2, 0);
    }
    assert(len1024(0) == 0);
    let r0 = empty_row().update(n as int, Some(0nat));
    lemma_init_one(runs, n, 0, 0);
    if n == 2 {
        lemma_init_one(runs, 0, 0, 1);
        assert(row == r0.update(0, Some(3nat)));
    } else if n == 3 {
        lemma_init_one(runs, 0, 1, 0);
        lemma_init_one(runs, 1, 0, 1);
        assert(row == r0.update(0, Some(2nat)).update(1, Some(3nat)));
    } else if n == 4 {
        lemma_init_one(runs, 1, 1, 0);
        lemma_init_one(runs, 2, 0, 1);
        assert(row == r0.update(1, Some(2nat)).update(2, Some(3nat)));
    } else {
        assert(row == r0);
    }
}

pub(crate) proof fn lemma_dp_split(runs: Seq<(u8, nat)>, i: nat)
    requires
        i < runs.len(),
        forall|k: int| 0 <= k < runs.len() ==> (#[trigger] runs[k]).1 <= 4,
        prefix_count(runs, (runs.len() - 1) as nat) <= 14,
        table_fits(runs),
    ensures
        row_split_ok(runs, i as int, dp_row(runs, i)),
    decreases i,
{
    if i == 0 {
        lemma_init_split(runs);
    } else {
        lemma_dp_split(runs, (i - 1) as nat);
        lemma_dp_row(runs, (i - 1) as nat);
        let prev = dp_row(runs, (i - 1) as nat);
        assert forall|j: int| 0 <= j < 15 implies (#[trigger] prev[j] matches Some(c) ==> len1024(c) <= 6) by {
            assert(dp_row(runs, (i - 1) as nat)[j] == prev[j]);
        }
        lemma_prefix_count_mono(runs, i, (runs.len() - 1) as nat);
        assert(runs[i - 1].1 <= 4);
        lemma_next_row_split(runs, i as int, prev, 15);
    }
}

/// A split of all runs that leaves nothing open splits the hand.
pub(crate) proof fn lemma_psplit_full(runs: Seq<(u8, nat)>, sp: Split)
    requires
        runs.len() >= 1,
        psplit_ok(runs, sp, runs.len() - 1),
        split_state(sp, runs.len() - 1) == 0,
    ensures
        split_ok(runs, sp),
{
    let last = runs.len() - 1;
    assert(sp[last].0 == 0);
    if last > 0 {
        assert(starts(sp, last - 1) == 0);
        assert(sp[last - 1].0 == 0);
    }
    assert forall|i: int| #![trigger sp[i]] 0 <= i < runs.len() && sp[i].0 > 0 implies i + 2 < runs.len() && face_is_prev(
        runs[i].0,
        runs[i + 1].0,
    ) && face_is_prev(runs[i + 1].0, runs[i + 2].0) by {
    }
}

pub(crate) proof fn lemma_result_is_split(runs: Seq<(u8, nat)>, t: int) -> (sp: Split)
    requires
        runs.len() >= 1,
        forall|k: int| 0 <= k < runs.len() ==> (#[trigger] runs[k]).1 <= 4,
        prefix_count(runs, (runs.len() - 1) as nat) <= 14,
        table_fits(runs),
        0 <= t < search_result(runs).len(),
    ensures
        split_ok(runs, sp),
        search_result(runs)[t] == reversed_code(split_code(sp, (runs.len() - 1) as nat)),
{
    let last = (runs.len() - 1) as nat;
    lemma_dp_split(runs, last);
    let row = dp_row(runs, last);
    if row[0] is None {
        assert(search_result(runs) =~= Seq::<nat>::empty());
        assert(false);
    }
    let c = row[0]->0;
    assert(cell_split_ok(runs, last as int, 0, c));
    assert(len1024(c) <= 6) by {
        assert(dp_row(runs, last)[0] matches Some(c2) ==> len1024(c2) <= 6);
    }
    let d = digits1024(c);
    let rv = d.reverse();
    lemma_digits1024_index(c, 0);
    lemma_take_while_entries(rv);
    assert(search_result(runs) == back_items(c).map_values(|q: nat| reversed_code(q)));
    let k = (d.len() - 1 - t) as nat;
    assert(back_items(c)[t] == rv[t]);
    lemma_digits1024_index(c, k);
    let p = digit1024(c, k);
    assert(back_items(c)[t] == p);
    assert(splits_to(runs, last as int, 0, p));
    let sp = choose|sp: Split|
        #[trigger] psplit_ok(runs, sp, last as int) && split_state(sp, last as int) == 0 && split_code(sp, last) == p;
    lemma_psplit_full(runs, sp);
    sp
}

/// Pattern `p` lists the combinations of a split of the runs, the first
/// completed in slot 0.
pub open spec fn is_split_pattern(runs: Seq<(u8, nat)>, p: nat) -> bool {
    exists|sp: Split| #[trigger] split_ok(runs, sp) && p == reversed_code(split_code(sp, (runs.len() - 1) as nat))
}

/// Every pattern the search returns is the completion-order pattern of a
/// split of the hand. Stated for runs of at most four copies each and at
/// most 14 tiles in all, on which no sequence of the search gathers more
/// than six patterns.
pub proof fn law_search_returns_only_splits(runs: Seq<(u8, nat)>)
    requires
        runs.len() >= 1,
        forall|k: int| 0 <= k < runs.len() ==> (#[trigger] runs[k]).1 <= 4,
        prefix_count(runs, (runs.len() - 1) as nat) <= 14,
        table_fits(runs),
    ensures
        forall|t: int| 0 <= t < search_result(runs).len() ==> is_split_pattern(runs, #[trigger] search_result(runs)[t]),
{
    assert forall|t: int| 0 <= t < search_result(runs).len() implies is_split_pattern(
        runs,
        #[trigger] search_result(runs)[t],
    ) by {
        let sp = lemma_result_is_split(runs, t);
    }
}

/// The search returns exactly the splits of the hand: a pattern is among
/// the results if and only if it lists the combinations of a split of the
/// hand in the order in which they are completed (by the face of their last
/// tile, a run of three faces before a three of a kind or pair completed at
/// the same face). Stated for runs of rising faces with one to four copies
/// each and at most 14 tiles in all, on which no sequence of the search
/// gathers more than six patterns.
pub proof fn law_search_lists_the_splits(runs: Seq<(u8, nat)>, p: nat)
    requires
        runs.len() >= 1,
        forall|k: int| 0 <= k < runs.len() ==> 1 <= (#[trigger] runs[k]).1 <= 4,
        prefix_count(runs, (runs.len() - 1) as nat) <= 14,
        table_fits(runs),
    ensures
        search_result(runs).contains(p) <==> is_split_pattern(runs, p),
{
    let last = (runs.len() - 1) as nat;
    assert forall|k: int| 0 <= k < runs.len() implies (#[trigger] runs[k]).1 <= 4 by {
        assert(1 <= runs[k].1 <= 4);
    }
    if search_result(runs).contains(p) {
        law_search_returns_only_splits(runs);
        let t = choose|t: int| 0 <= t < search_result(runs).len() && search_result(runs)[t] == p;
        assert(is_split_pattern(runs, search_result(runs)[t]));
    }
    if is_split_pattern(runs, p) {
        let sp = choose|sp: Split| #[trigger] split_ok(runs, sp) && p == reversed_code(split_code(sp, last));
        law_search_lists_every_split(runs, sp);
    }
}

/// A step of the search only adds patterns: from any sound state of row
/// `i - 1` (of at most six patterns) into a sound row `i`, a reached state
/// stays reached and a pattern it holds in its first six slots stays there
/// (shifted up by what is pushed after it), unless the state then spills
/// past six patterns.
pub proof fn law_table_only_adds(runs: Seq<(u8, nat)>, i: int, row: Row, c: nat, j: int, jf: int, p: nat)
    requires
        1 <= i < runs.len(),
        row_ok(runs, i, row),
        0 <= j <= 14,
        cell_ok(runs, i - 1, j, c),
        len1024(c) <= 6,
        runs[i].1 <= 4,
        prefix_count(runs, i as nat) <= 14,
        0 <= jf < 15,
        follows(row, jf, p),
    ensures
        row_ok(runs, i, update(row, c, j, runs[i - 1].0, runs[i].0, runs[i].1 as int, 0)),
        follows(update(row, c, j, runs[i - 1].0, runs[i].0, runs[i].1 as int, 0), jf, p),
{
    lemma_update_follow_keep(runs, i, row, c, j, jf, p);
}

/// Every run of a face sequence holds at least one face.
pub(crate) proof fn lemma_runs_positive(s: Seq<u8>)
    ensures
        forall|k: int| 0 <= k < run_counts(s).len() ==> (#[trigger] run_counts(s)[k]).1 >= 1,
    decreases s.len(),
{
    if s.len() > 0 {
        lemma_runs_positive(s.drop_last());
        let r = run_counts(s.drop_last());
        let rs = run_counts(s);
        assert forall|k: int| 0 <= k < rs.len() implies (#[trigger] rs[k]).1 >= 1 by {
            if k < r.len() && !(r.len() > 0 && r.last().0 == s.last() && k == r.len() - 1) {
                assert(rs[k] == r[k]);
            }
        }
    }
}

} // verus!
