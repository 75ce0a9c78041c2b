//! The declarative meaning of the arrangement counter.
//!
//! [`crate::springs::record_arrangements`] is defined by a recursion over
//! cells and clue states. This module states what that recursion counts: a
//! record's count is zero exactly when no resolution of its unknown cells
//! realizes the clues ([`lemma_count_zero_iff_unsatisfiable`]); on a pattern
//! with no unknowns the count is one when the pattern's run lengths equal the
//! clues and zero otherwise ([`lemma_count_resolved`]); with no clues the
//! count is one exactly when the pattern has no definite block
//! ([`lemma_count_empty_clues`]); and unfolding a record once changes nothing
//! ([`lemma_unfold_identity`]).

use crate::driver::{unfold_clues, unfold_pattern};
use crate::springs::{
    arrangements_from, bit_matches, cell_arrangements, initial_state, later_clues,
    record_arrangements, Bit, ClueState,
};
use vstd::prelude::*;

verus! {

/// A fully resolved sequence of cells: no `Unknown` remains.
pub open spec fn resolved(v: Seq<Bit>) -> bool {
    forall|i: int| 0 <= i < v.len() ==> v[i] != Bit::Unknown
}

/// `v` is one way of resolving the pattern `p`: same length, fully resolved,
/// and compatible with `p` cell by cell.
pub open spec fn resolves(v: Seq<Bit>, p: Seq<Bit>) -> bool {
    &&& v.len() == p.len()
    &&& resolved(v)
    &&& forall|i: int| 0 <= i < p.len() ==> #[trigger] bit_matches(p[i], v[i])
}

/// `v` equals `cells` wherever `cells` is determined; `v` may resolve cells
/// that are `Unknown` in `cells` (and may keep them unknown).
pub open spec fn refines(v: Seq<Bit>, cells: Seq<Bit>) -> bool {
    &&& v.len() == cells.len()
    &&& forall|i: int| 0 <= i < cells.len() ==> cells[i] == v[i] || cells[i] == Bit::Unknown
}

/// The lengths of the maximal runs of non-gap cells of `v`, left to right,
/// on top of a run of `cur` cells already seen. `run_lengths` below is the
/// `cur == 0` instance; it is meaningful for resolved sequences, where every
/// non-gap cell is a block.
pub open spec fn runs_from(v: Seq<Bit>, cur: nat) -> Seq<nat>
    decreases v.len(),
{
    if v.len() == 0 {
        if cur > 0 {
            seq![cur]
        } else {
            Seq::empty()
        }
    } else if v[0] == Bit::Gap {
        if cur > 0 {
            seq![cur] + runs_from(v.drop_first(), 0)
        } else {
            runs_from(v.drop_first(), 0)
        }
    } else {
        runs_from(v.drop_first(), cur + 1)
    }
}

/// The lengths of the maximal block runs of a resolved sequence, in order.
pub open spec fn run_lengths(v: Seq<Bit>) -> Seq<nat> {
    runs_from(v, 0)
}

/// The clue list as a sequence of mathematical naturals.
pub open spec fn nat_clues(clues: Seq<u32>) -> Seq<nat> {
    clues.map_values(|c: u32| c as nat)
}

/// A sequence ends in a gap (or is empty); every suffix the counter walks
/// satisfies this, because a gap sentinel pads the pattern.
pub open spec fn gap_terminated(v: Seq<Bit>) -> bool {
    v.len() == 0 || v.last() == Bit::Gap
}

/// `v` starts with exactly `r` blocks, then one gap, and the runs after that
/// gap are `rest`: what an in-flight run with `r` cells remaining demands of
/// the suffix.
pub open spec fn closes(v: Seq<Bit>, r: nat, rest: Seq<nat>) -> bool
    decreases r,
{
    if r == 0 {
        v.len() > 0 && v[0] == Bit::Gap && run_lengths(v.drop_first()) == rest
    } else {
        v.len() > 0 && v[0] == Bit::Block && closes(v.drop_first(), (r - 1) as nat, rest)
    }
}

/// What a resolved suffix must look like for the counting recursion to
/// accept it from clue state `st` with `clues` not yet started.
pub open spec fn accepted(cells: Seq<Bit>, st: Option<ClueState>, clues: Seq<u32>) -> bool {
    match st {
        None => clues.len() == 0 && run_lengths(cells) == Seq::<nat>::empty(),
        Some(ClueState::Pending(len)) => run_lengths(cells) == seq![len as nat] + nat_clues(clues),
        Some(ClueState::InProgress(r)) => closes(cells, r as nat, nat_clues(clues)),
    }
}

/// A run in progress is never empty: with `cur >= 1`, or a block in front,
/// the first reported run length is at least `max(cur, 1)`.
proof fn lemma_runs_first(v: Seq<Bit>, cur: nat)
    requires
        cur >= 1 || (v.len() > 0 && v[0] != Bit::Gap),
    ensures
        runs_from(v, cur).len() >= 1,
        runs_from(v, cur)[0] >= cur,
        runs_from(v, cur)[0] >= 1,
    decreases v.len(),
{
    if v.len() == 0 {
    } else if v[0] == Bit::Gap {
    } else {
        lemma_runs_first(v.drop_first(), cur + 1);
    }
}

/// For a resolved, gap-terminated, non-empty suffix seen mid-run (`k` block
/// cells already consumed), demanding `c` more blocks, a gap, and then runs
/// `rest` is the same as the suffix's runs being `k + c` followed by `rest`.
proof fn lemma_closes_runs(v: Seq<Bit>, k: nat, c: nat, rest: Seq<nat>)
    requires
        resolved(v),
        gap_terminated(v),
        v.len() >= 1,
        k >= 1,
    ensures
        closes(v, c, rest) <==> runs_from(v, k) == seq![(k + c) as nat] + rest,
    decreases v.len(),
{
    let tail = v.drop_first();
    if v[0] == Bit::Gap {
        // runs_from(v, k) == seq![k] + run_lengths(tail)
        if c == 0 {
            if run_lengths(tail) == rest {
                assert(seq![k] + run_lengths(tail) =~= seq![(k + c) as nat] + rest);
            }
            if runs_from(v, k) == seq![(k + c) as nat] + rest {
                assert(runs_from(v, k) == seq![k] + run_lengths(tail));
                assert((seq![k] + run_lengths(tail)).len() == 1 + run_lengths(tail).len());
                assert((seq![(k + c) as nat] + rest).len() == 1 + rest.len());
                assert(run_lengths(tail).len() == rest.len());
                assert(run_lengths(tail) =~= rest) by {
                    assert forall|i: int| 0 <= i < rest.len() implies run_lengths(tail)[i]
                        == rest[i] by {
                        assert((seq![k] + run_lengths(tail))[i + 1] == run_lengths(tail)[i]);
                        assert((seq![(k + c) as nat] + rest)[i + 1] == rest[i]);
                    }
                }
            }
        } else {
            // closes demands a block in front: false; and the first run
            // length would be k, not k + c.
            assert((seq![k] + run_lengths(tail))[0] == k);
            assert((seq![(k + c) as nat] + rest)[0] == k + c);
        }
    } else {
        // v[0] == Bit::Block, since v is resolved.
        assert(v[0] == Bit::Block);
        // A block is not the last cell of a gap-terminated sequence.
        assert(v.len() >= 2) by {
            assert(v.last() == Bit::Gap);
        }
        assert(resolved(tail));
        assert(gap_terminated(tail)) by {
            assert(tail.last() == v.last());
        }
        if c == 0 {
            // closes is false (no gap in front); the runs side is false too,
            // because the first run is at least k + 1.
            lemma_runs_first(tail, k + 1);
            assert((seq![(k + c) as nat] + rest)[0] == k);
        } else {
            lemma_closes_runs(tail, k + 1, (c - 1) as nat, rest);
        }
    }
}

/// On a resolved, gap-terminated suffix the counting recursion is a
/// deterministic acceptance test: it returns 1 when [`accepted`] holds and 0
/// otherwise.
proof fn lemma_resolved_count(cells: Seq<Bit>, st: Option<ClueState>, clues: Seq<u32>)
    requires
        resolved(cells),
        gap_terminated(cells),
    ensures
        arrangements_from(cells, st, clues) == if accepted(cells, st, clues) {
            1nat
        } else {
            0nat
        },
    decreases cells.len(), crate::springs::state_rank(st),
{
    if cells.len() == 0 {
        match st {
            None => {
                assert(run_lengths(cells) == Seq::<nat>::empty());
            },
            Some(ClueState::Pending(len)) => {
                assert(run_lengths(cells).len() == 0);
                assert((seq![len as nat] + nat_clues(clues)).len() >= 1);
            },
            Some(ClueState::InProgress(_)) => {},
        }
    } else {
        let b = cells[0];
        let rest = cells.drop_first();
        assert(b != Bit::Unknown);
        assert(resolved(rest));
        assert(gap_terminated(rest)) by {
            if rest.len() > 0 {
                assert(rest.last() == cells.last());
            }
        }
        if b == Bit::Gap {
            match st {
                None => {
                    lemma_resolved_count(rest, None, clues);
                },
                Some(ClueState::Pending(len)) => {
                    lemma_resolved_count(rest, Some(ClueState::Pending(len)), clues);
                },
                Some(ClueState::InProgress(r)) => {
                    if r == 0 {
                        // The gap closes the run; the next clue (if any)
                        // becomes pending.
                        if clues.len() == 0 {
                            lemma_resolved_count(rest, None, clues);
                            assert(nat_clues(clues) =~= Seq::<nat>::empty());
                        } else {
                            lemma_resolved_count(
                                rest,
                                Some(ClueState::Pending(clues[0])),
                                clues.drop_first(),
                            );
                            assert(nat_clues(clues) =~= seq![clues[0] as nat] + nat_clues(
                                clues.drop_first(),
                            ));
                        }
                    } else {
                        // The run is cut short: rejected, and `closes`
                        // demands a block in front.
                    }
                },
            }
        } else {
            assert(b == Bit::Block);
            assert(cells.len() >= 2) by {
                assert(cells.last() == Bit::Gap);
            }
            assert(rest.len() >= 1);
            match st {
                None => {
                    // No clue explains this block; the runs are not empty
                    // either.
                    lemma_runs_first(rest, 1);
                },
                Some(ClueState::Pending(len)) => {
                    lemma_resolved_count(cells, Some(ClueState::InProgress(len)), clues);
                    // The pending and in-progress readings agree in front of
                    // a block.
                    if len == 0 {
                        lemma_runs_first(rest, 1);
                        assert((seq![len as nat] + nat_clues(clues))[0] == 0);
                    } else {
                        lemma_closes_runs(rest, 1, (len - 1) as nat, nat_clues(clues));
                        assert(runs_from(cells, 0) == runs_from(rest, 1));
                        assert(seq![(1 + (len - 1) as nat) as nat] + nat_clues(clues) =~= seq![
                            len as nat,
                        ] + nat_clues(clues));
                    }
                },
                Some(ClueState::InProgress(r)) => {
                    if r == 0 {
                        // The clue demanded the run end here.
                    } else {
                        lemma_resolved_count(
                            rest,
                            Some(ClueState::InProgress((r - 1) as u32)),
                            clues,
                        );
                    }
                },
            }
        }
    }
}

/// Appending the gap sentinel never changes the run lengths: the sentinel
/// only closes a run that the end of the sequence would have closed anyway.
proof fn lemma_runs_push_gap(v: Seq<Bit>, cur: nat)
    ensures
        runs_from(v.push(Bit::Gap), cur) == runs_from(v, cur),
    decreases v.len(),
{
    let w = v.push(Bit::Gap);
    if v.len() == 0 {
        assert(w[0] == Bit::Gap);
        assert(w.drop_first() =~= Seq::<Bit>::empty());
        if cur > 0 {
            assert(seq![cur] + runs_from(w.drop_first(), 0) =~= seq![cur]);
        }
    } else {
        assert(w[0] == v[0]);
        assert(w.drop_first() =~= v.drop_first().push(Bit::Gap));
        if v[0] == Bit::Gap {
            lemma_runs_push_gap(v.drop_first(), 0);
        } else {
            lemma_runs_push_gap(v.drop_first(), cur + 1);
        }
    }
}

/// From the initial clue state, acceptance of the padded pattern says
/// exactly that the resolved pattern's run lengths are the clues.
proof fn lemma_accepted_initial(p: Seq<Bit>, clues: Seq<u32>)
    ensures
        accepted(p.push(Bit::Gap), initial_state(clues), later_clues(clues)) <==> run_lengths(p)
            == nat_clues(clues),
{
    lemma_runs_push_gap(p, 0);
    if clues.len() == 0 {
        assert(nat_clues(clues) =~= Seq::<nat>::empty());
    } else {
        assert(nat_clues(clues) =~= seq![clues[0] as nat] + nat_clues(clues.drop_first()));
    }
}

/// Resolving unknown cells never increases the count: if `cells1` agrees
/// with `cells2` wherever `cells2` is determined, every completion counted
/// for `cells1` is counted for `cells2`.
proof fn lemma_mono(cells1: Seq<Bit>, cells2: Seq<Bit>, st: Option<ClueState>, clues: Seq<u32>)
    requires
        refines(cells1, cells2),
    ensures
        arrangements_from(cells1, st, clues) <= arrangements_from(cells2, st, clues),
    decreases cells1.len(), 2int, 0int,
{
    if cells1.len() > 0 {
        let rest1 = cells1.drop_first();
        let rest2 = cells2.drop_first();
        assert(refines(rest1, rest2)) by {
            assert forall|i: int| 0 <= i < rest2.len() implies rest2[i] == rest1[i] || rest2[i]
                == Bit::Unknown by {
                assert(cells2[i + 1] == cells1[i + 1] || cells2[i + 1] == Bit::Unknown);
            }
        }
        lemma_mono_cell(cells1[0], cells2[0], rest1, rest2, st, clues);
    }
}

/// Cell-level monotonicity: coarsening the current cell to `Unknown`, or
/// coarsening the suffix, never loses completions.
proof fn lemma_mono_cell(
    b1: Bit,
    b2: Bit,
    rest1: Seq<Bit>,
    rest2: Seq<Bit>,
    st: Option<ClueState>,
    clues: Seq<u32>,
)
    requires
        b2 == b1 || b2 == Bit::Unknown,
        refines(rest1, rest2),
    ensures
        cell_arrangements(b1, rest1, st, clues) <= cell_arrangements(b2, rest2, st, clues),
    decreases rest1.len() + 1, crate::springs::bit_rank(b2), crate::springs::state_rank(st),
{
    if b2 == Bit::Unknown {
        if b1 == Bit::Unknown {
            lemma_mono_cell(Bit::Block, Bit::Block, rest1, rest2, st, clues);
            lemma_mono_cell(Bit::Gap, Bit::Gap, rest1, rest2, st, clues);
        } else if b1 == Bit::Block {
            lemma_mono_cell(Bit::Block, Bit::Block, rest1, rest2, st, clues);
        } else {
            lemma_mono_cell(Bit::Gap, Bit::Gap, rest1, rest2, st, clues);
        }
    } else if b1 == Bit::Block {
        match st {
            None => {},
            Some(ClueState::Pending(len)) => {
                lemma_mono_cell(
                    Bit::Block,
                    Bit::Block,
                    rest1,
                    rest2,
                    Some(ClueState::InProgress(len)),
                    clues,
                );
            },
            Some(ClueState::InProgress(r)) => {
                if r > 0 {
                    lemma_mono(rest1, rest2, Some(ClueState::InProgress((r - 1) as u32)), clues);
                }
            },
        }
    } else {
        match st {
            None => {
                lemma_mono(rest1, rest2, None, clues);
            },
            Some(ClueState::Pending(len)) => {
                lemma_mono(rest1, rest2, Some(ClueState::Pending(len)), clues);
            },
            Some(ClueState::InProgress(r)) => {
                if r == 0 {
                    if clues.len() == 0 {
                        lemma_mono(rest1, rest2, None, clues);
                    } else {
                        lemma_mono(
                            rest1,
                            rest2,
                            Some(ClueState::Pending(clues[0])),
                            clues.drop_first(),
                        );
                    }
                }
            },
        }
    }
}

/// A positive cell count has a resolved witness: some resolution of the
/// current cell and of the suffix is still counted.
proof fn lemma_cell_positive(b: Bit, rest: Seq<Bit>, st: Option<ClueState>, clues: Seq<u32>)
    requires
        cell_arrangements(b, rest, st, clues) >= 1,
    ensures
        exists|bb: Bit, w: Seq<Bit>|
            bb != Bit::Unknown && (bb == b || b == Bit::Unknown) && refines(w, rest) && resolved(w)
                && #[trigger] cell_arrangements(bb, w, st, clues) >= 1,
    decreases rest.len() + 1, crate::springs::bit_rank(b), crate::springs::state_rank(st),
{
    if b == Bit::Unknown {
        if cell_arrangements(Bit::Block, rest, st, clues) >= 1 {
            lemma_cell_positive(Bit::Block, rest, st, clues);
            let (bb, w): (Bit, Seq<Bit>) = choose|bb: Bit, w: Seq<Bit>|
                bb != Bit::Unknown && (bb == Bit::Block || false) && refines(w, rest) && resolved(w)
                    && #[trigger] cell_arrangements(bb, w, st, clues) >= 1;
            assert(cell_arrangements(bb, w, st, clues) >= 1);
        } else {
            lemma_cell_positive(Bit::Gap, rest, st, clues);
            let (bb, w): (Bit, Seq<Bit>) = choose|bb: Bit, w: Seq<Bit>|
                bb != Bit::Unknown && (bb == Bit::Gap || false) && refines(w, rest) && resolved(w)
                    && #[trigger] cell_arrangements(bb, w, st, clues) >= 1;
            assert(cell_arrangements(bb, w, st, clues) >= 1);
        }
    } else if b == Bit::Block {
        match st {
            None => {},
            Some(ClueState::Pending(len)) => {
                lemma_cell_positive(Bit::Block, rest, Some(ClueState::InProgress(len)), clues);
                let (bb, w): (Bit, Seq<Bit>) = choose|bb: Bit, w: Seq<Bit>|
                    bb != Bit::Unknown && (bb == Bit::Block || false) && refines(w, rest)
                        && resolved(w) && #[trigger] cell_arrangements(
                        bb,
                        w,
                        Some(ClueState::InProgress(len)),
                        clues,
                    ) >= 1;
                assert(cell_arrangements(Bit::Block, w, st, clues) >= 1);
            },
            Some(ClueState::InProgress(r)) => {
                lemma_arr_positive(rest, Some(ClueState::InProgress((r - 1) as u32)), clues);
                let w = choose|w: Seq<Bit>|
                    refines(w, rest) && resolved(w) && #[trigger] arrangements_from(
                        w,
                        Some(ClueState::InProgress((r - 1) as u32)),
                        clues,
                    ) >= 1;
                assert(cell_arrangements(Bit::Block, w, st, clues) >= 1);
            },
        }
    } else {
        match st {
            None => {
                lemma_arr_positive(rest, None, clues);
                let w = choose|w: Seq<Bit>|
                    refines(w, rest) && resolved(w) && #[trigger] arrangements_from(
                        w,
                        None,
                        clues,
                    ) >= 1;
                assert(cell_arrangements(Bit::Gap, w, st, clues) >= 1);
            },
            Some(ClueState::Pending(len)) => {
                lemma_arr_positive(rest, Some(ClueState::Pending(len)), clues);
                let w = choose|w: Seq<Bit>|
                    refines(w, rest) && resolved(w) && #[trigger] arrangements_from(
                        w,
                        Some(ClueState::Pending(len)),
                        clues,
                    ) >= 1;
                assert(cell_arrangements(Bit::Gap, w, st, clues) >= 1);
            },
            Some(ClueState::InProgress(r)) => {
                if clues.len() == 0 {
                    lemma_arr_positive(rest, None, clues);
                    let w = choose|w: Seq<Bit>|
                        refines(w, rest) && resolved(w) && #[trigger] arrangements_from(
                            w,
                            None,
                            clues,
                        ) >= 1;
                    assert(cell_arrangements(Bit::Gap, w, st, clues) >= 1);
                } else {
                    lemma_arr_positive(
                        rest,
                        Some(ClueState::Pending(clues[0])),
                        clues.drop_first(),
                    );
                    let w = choose|w: Seq<Bit>|
                        refines(w, rest) && resolved(w) && #[trigger] arrangements_from(
                            w,
                            Some(ClueState::Pending(clues[0])),
                            clues.drop_first(),
                        ) >= 1;
                    assert(cell_arrangements(Bit::Gap, w, st, clues) >= 1);
                }
            },
        }
    }
}

/// A positive count has a resolved witness: some resolution of the whole
/// suffix is still counted.
proof fn lemma_arr_positive(cells: Seq<Bit>, st: Option<ClueState>, clues: Seq<u32>)
    requires
        arrangements_from(cells, st, clues) >= 1,
    ensures
        exists|w: Seq<Bit>|
            refines(w, cells) && resolved(w) && #[trigger] arrangements_from(w, st, clues) >= 1,
    decreases cells.len(), 2int, 0int,
{
    if cells.len() == 0 {
        assert(refines(cells, cells));
        assert(arrangements_from(cells, st, clues) >= 1);
    } else {
        lemma_cell_positive(cells[0], cells.drop_first(), st, clues);
        let (bb, w0): (Bit, Seq<Bit>) = choose|bb: Bit, w0: Seq<Bit>|
            bb != Bit::Unknown && (bb == cells[0] || cells[0] == Bit::Unknown) && refines(
                w0,
                cells.drop_first(),
            ) && resolved(w0) && #[trigger] cell_arrangements(bb, w0, st, clues) >= 1;
        let w = seq![bb] + w0;
        assert(w[0] == bb);
        assert(w.drop_first() =~= w0);
        assert(arrangements_from(w, st, clues) >= 1);
        assert(refines(w, cells)) by {
            assert forall|i: int| 0 <= i < cells.len() implies cells[i] == w[i] || cells[i]
                == Bit::Unknown by {
                if i > 0 {
                    assert(cells.drop_first()[i - 1] == w0[i - 1] || cells.drop_first()[i - 1]
                        == Bit::Unknown);
                }
            }
        }
        assert(resolved(w));
    }
}

/// Some cell of `p` is definitely a block.
pub open spec fn has_block(p: Seq<Bit>) -> bool {
    exists|i: int| 0 <= i < p.len() && p[i] == Bit::Block
}

/// With no clue left and none in flight, the count is 1 exactly when no
/// definite block remains (every unknown resolves to a gap, and in only one
/// way).
proof fn lemma_no_clue_count(cells: Seq<Bit>, clues: Seq<u32>)
    requires
        clues.len() == 0,
    ensures
        arrangements_from(cells, None, clues) == if has_block(cells) {
            0nat
        } else {
            1nat
        },
    decreases cells.len(),
{
    if cells.len() == 0 {
    } else {
        let rest = cells.drop_first();
        lemma_no_clue_count(rest, clues);
        if cells[0] == Bit::Block {
            assert(has_block(cells));
        } else {
            // A leading gap or unknown adds no block: the block sets of
            // `cells` and of its tail correspond.
            assert(cell_arrangements(Bit::Block, rest, None, clues) == 0);
            assert(cell_arrangements(Bit::Gap, rest, None, clues) == arrangements_from(
                rest,
                None,
                clues,
            ));
            if has_block(rest) {
                let i = choose|i: int| 0 <= i < rest.len() && rest[i] == Bit::Block;
                assert(cells[i + 1] == Bit::Block);
            }
            if has_block(cells) {
                let i = choose|i: int| 0 <= i < cells.len() && cells[i] == Bit::Block;
                assert(rest[i - 1] == Bit::Block);
            }
        }
    }
}

/// Unfolding a record once is the identity: the pattern, the clues and
/// therefore the count are unchanged.
pub proof fn lemma_unfold_identity(p: Seq<Bit>, clues: Seq<u32>)
    ensures
        unfold_pattern(p, 1) == p,
        unfold_clues(clues, 1) == clues,
        record_arrangements(unfold_pattern(p, 1), unfold_clues(clues, 1)) == record_arrangements(
            p,
            clues,
        ),
{
}

/// On a pattern with no unknown cell the count is determined outright: 1
/// when the pattern's run lengths equal the clues, in order; 0 otherwise.
pub proof fn lemma_count_resolved(p: Seq<Bit>, clues: Seq<u32>)
    requires
        resolved(p),
    ensures
        record_arrangements(p, clues) == if run_lengths(p) == nat_clues(clues) {
            1nat
        } else {
            0nat
        },
{
    let padded = p.push(Bit::Gap);
    assert(resolved(padded)) by {
        assert forall|i: int| 0 <= i < padded.len() implies padded[i] != Bit::Unknown by {
            if i < p.len() {
                assert(padded[i] == p[i]);
            }
        }
    }
    assert(gap_terminated(padded));
    lemma_resolved_count(padded, initial_state(clues), later_clues(clues));
    lemma_accepted_initial(p, clues);
}

/// The count is zero exactly when no resolution of the unknown cells
/// realizes the clues; a positive count always has a witness, and every
/// witness forces a positive count. (The count is a natural number, so it is
/// never negative.)
pub proof fn lemma_count_zero_iff_unsatisfiable(p: Seq<Bit>, clues: Seq<u32>)
    ensures
        (record_arrangements(p, clues) == 0) <==> !(exists|v: Seq<Bit>|
            #[trigger] resolves(v, p) && run_lengths(v) == nat_clues(clues)),
{
    let padded = p.push(Bit::Gap);
    let st = initial_state(clues);
    let later = later_clues(clues);
    if record_arrangements(p, clues) != 0 {
        lemma_arr_positive(padded, st, later);
        let w = choose|w: Seq<Bit>|
            refines(w, padded) && resolved(w) && #[trigger] arrangements_from(w, st, later) >= 1;
        assert(w.last() == Bit::Gap) by {
            assert(padded[padded.len() - 1] == w[padded.len() - 1] || padded[padded.len() - 1]
                == Bit::Unknown);
        }
        assert(gap_terminated(w));
        lemma_resolved_count(w, st, later);
        assert(accepted(w, st, later));
        let u = w.drop_last();
        assert(w =~= u.push(Bit::Gap));
        lemma_accepted_initial(u, clues);
        assert(resolves(u, p)) by {
            assert(resolved(u));
            assert forall|i: int| 0 <= i < p.len() implies #[trigger] bit_matches(p[i], u[i]) by {
                assert(padded[i] == w[i] || padded[i] == Bit::Unknown);
                assert(padded[i] == p[i]);
                assert(u[i] == w[i]);
            }
        }
        assert(resolves(u, p) && run_lengths(u) == nat_clues(clues));
    }
    if exists|v: Seq<Bit>| #[trigger] resolves(v, p) && run_lengths(v) == nat_clues(clues) {
        let v = choose|v: Seq<Bit>|
            #[trigger] resolves(v, p) && run_lengths(v) == nat_clues(clues);
        lemma_accepted_initial(v, clues);
        let vp = v.push(Bit::Gap);
        assert(resolved(vp)) by {
            assert forall|i: int| 0 <= i < vp.len() implies vp[i] != Bit::Unknown by {
                if i < v.len() {
                    assert(vp[i] == v[i]);
                }
            }
        }
        assert(gap_terminated(vp));
        lemma_resolved_count(vp, st, later);
        assert(arrangements_from(vp, st, later) == 1);
        assert(refines(vp, padded)) by {
            assert forall|i: int| 0 <= i < padded.len() implies padded[i] == vp[i] || padded[i]
                == Bit::Unknown by {
                if i < p.len() {
                    assert(bit_matches(p[i], v[i]));
                    assert(padded[i] == p[i] && vp[i] == v[i]);
                    assert(v[i] != Bit::Unknown);
                }
            }
        }
        lemma_mono(vp, padded, st, later);
        assert(record_arrangements(p, clues) >= 1);
    }
}

/// With an empty clue list the count is 1 exactly when the pattern has no
/// definite block (so resolving every unknown to a gap is the one valid
/// resolution), and 0 otherwise.
pub proof fn lemma_count_empty_clues(p: Seq<Bit>, clues: Seq<u32>)
    requires
        clues.len() == 0,
    ensures
        record_arrangements(p, clues) == if has_block(p) {
            0nat
        } else {
            1nat
        },
{
    let padded = p.push(Bit::Gap);
    lemma_no_clue_count(padded, clues);
    if has_block(p) {
        let i = choose|i: int| 0 <= i < p.len() && p[i] == Bit::Block;
        assert(padded[i] == Bit::Block);
        assert(has_block(padded));
    }
    if has_block(padded) {
        let i = choose|i: int| 0 <= i < padded.len() && padded[i] == Bit::Block;
        assert(i < p.len() && padded[i] == p[i]);
        assert(has_block(p));
    }
}

} // verus!
