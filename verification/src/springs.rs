//! The hot-springs arrangement counter.
//!
//! A [`Record`] pairs a pattern of ternary cells with an ordered list of
//! clues, each clue the length of one required maximal run of [`Bit::Block`]
//! cells. [`count`] returns the number of ways the [`Bit::Unknown`] cells can
//! be resolved so that the resolved pattern's runs have exactly the clued
//! lengths, in order.
//!
//! The counting rules are stated as the recursive spec functions
//! [`arrangements_from`] and [`cell_arrangements`], a case analysis over the
//! current cell and the state of the clue currently being satisfied. The
//! executable counter walks the same case analysis and memoizes subproblems
//! by position and clue index, and is proved to return exactly the value of
//! the spec recursion.

use vstd::prelude::*;

verus! {

/// One cell of a record's pattern: definitely inside a damaged run
/// (`Block`), definitely operational (`Gap`), or not yet resolved
/// (`Unknown`).
#[derive(Clone, Copy, Debug, PartialEq, Eq, Structural, Hash)]
pub enum Bit {
    Block,
    Gap,
    Unknown,
}

/// What [`Bit::matches`] decides: two cells are compatible when either side
/// is still unknown, or the two are equal.
pub open spec fn bit_matches(a: Bit, b: Bit) -> bool {
    a == Bit::Unknown || b == Bit::Unknown || a == b
}

impl Bit {
    /// Compatibility of two cells: an `Unknown` matches anything; otherwise
    /// the two must be equal.
    pub fn matches(&self, other: &Self) -> (r: bool)
        ensures
            r == bit_matches(*self, *other),
    {
        match (self, other) {
            (Bit::Unknown, _) => true,
            (_, Bit::Unknown) => true,
            (a, b) => a == b,
        }
    }
}

/// Progress of the clue the counter is currently trying to satisfy.
///
/// A clue moves monotonically from `Pending(length)` ("its run has not
/// started; `length` block cells will be required once it does") through
/// `InProgress(remaining)` ("inside its run; `remaining` more block cells and
/// then one gap are required before it may close") to consumed; it never
/// reverts.
#[derive(Clone, Copy, Debug, PartialEq, Eq, Structural)]
pub enum ClueState {
    Pending(u32),
    InProgress(u32),
}

/// One problem instance: a pattern of cells and the ordered clue list its
/// resolved runs must realize.
#[derive(Clone, Debug)]
pub struct Record {
    pub pattern: Vec<Bit>,
    pub clues: Vec<u32>,
}

/// Rank used by the termination measure of the counting recursion: resolving
/// an `Unknown` cell into `Block` or `Gap` strictly lowers it.
pub open spec fn bit_rank(b: Bit) -> int {
    match b {
        Bit::Unknown => 1,
        _ => 0,
    }
}

/// Rank used by the termination measure of the counting recursion: starting
/// a pending run (`Pending` to `InProgress`) strictly lowers it.
pub open spec fn state_rank(st: Option<ClueState>) -> int {
    match st {
        Some(ClueState::Pending(_)) => 1,
        _ => 0,
    }
}

/// The number of valid completions of the suffix `cells`, given that the
/// clue currently in flight is in state `st` (`None` once every clue has
/// been consumed) and that `clues` are the clues not yet started.
///
/// Both sequences are consumed front to back; the current cell is handed to
/// [`cell_arrangements`], which performs the case analysis.
pub open spec fn arrangements_from(cells: Seq<Bit>, st: Option<ClueState>, clues: Seq<u32>) -> nat
    decreases cells.len(), 2int, 0int,
{
    if cells.len() == 0 {
        // Both the pattern and the clues must be exhausted: exactly one
        // valid (empty) completion, otherwise none.
        if st is None && clues.len() == 0 {
            1
        } else {
            0
        }
    } else {
        cell_arrangements(cells[0], cells.drop_first(), st, clues)
    }
}

/// Case analysis for one cell `b` standing in front of the suffix `rest`.
///
/// An `Unknown` cell branches into its two resolutions and the counts add;
/// every other case either rejects (0), consumes the cell, or re-enters the
/// same cell after moving a pending clue in progress.
pub open spec fn cell_arrangements(b: Bit, rest: Seq<Bit>, st: Option<ClueState>, clues: Seq<u32>) -> nat
    decreases rest.len() + 1, bit_rank(b), state_rank(st),
{
    match b {
        // The one branching point of the search: count the cell as a block
        // and as a gap, holding the clue state fixed, and add the results.
        Bit::Unknown => cell_arrangements(Bit::Block, rest, st, clues) + cell_arrangements(
            Bit::Gap,
            rest,
            st,
            clues,
        ),
        Bit::Block => match st {
            // A block with no clue left to explain it.
            None => 0,
            // A run begins here: re-enter the same cell with the clue in
            // progress, so the cell is spent as the run's first unit.
            Some(ClueState::Pending(len)) => cell_arrangements(
                Bit::Block,
                rest,
                Some(ClueState::InProgress(len)),
                clues,
            ),
            Some(ClueState::InProgress(r)) => if r == 0 {
                // The clue demanded the run end here, yet it continues.
                0
            } else {
                // Consume one unit of the run.
                arrangements_from(rest, Some(ClueState::InProgress((r - 1) as u32)), clues)
            },
        },
        Bit::Gap => match st {
            // Padding after the last clue.
            None => arrangements_from(rest, None, clues),
            // A gap before the pending run starts.
            Some(ClueState::Pending(len)) => arrangements_from(
                rest,
                Some(ClueState::Pending(len)),
                clues,
            ),
            Some(ClueState::InProgress(r)) => if r != 0 {
                // The run is cut short of its required length.
                0
            } else if clues.len() == 0 {
                // This gap closes the final run.
                arrangements_from(rest, None, clues)
            } else {
                // This gap closes the run; the next clue becomes pending.
                arrangements_from(rest, Some(ClueState::Pending(clues[0])), clues.drop_first())
            },
        },
    }
}

/// The clue state the recursion starts from: the first clue pending, or no
/// clue at all when the list is empty.
pub open spec fn initial_state(clues: Seq<u32>) -> Option<ClueState> {
    if clues.len() == 0 {
        None
    } else {
        Some(ClueState::Pending(clues[0]))
    }
}

/// The clues not yet started when the recursion starts: all but the first.
pub open spec fn later_clues(clues: Seq<u32>) -> Seq<u32> {
    if clues.len() == 0 {
        clues
    } else {
        clues.drop_first()
    }
}

/// The number of resolutions of `pattern` whose maximal block runs have
/// exactly the lengths `clues`, in order.
///
/// A trailing gap sentinel is appended so that every run is bounded on the
/// right without special-casing the final position; the sentinel adds no
/// block, so it changes no count.
pub open spec fn record_arrangements(pattern: Seq<Bit>, clues: Seq<u32>) -> nat {
    arrangements_from(pattern.push(Bit::Gap), initial_state(clues), later_clues(clues))
}

/// Where the executable counter stands in the clue list: every clue consumed
/// (`Done`), clue `k` pending, or clue `k` in progress with the given number
/// of block cells still required.
#[derive(Clone, Copy)]
enum Cursor {
    Done,
    Pending(usize),
    Run(usize, u32),
}

spec fn cursor_wf(cur: Cursor, clues: Seq<u32>) -> bool {
    match cur {
        Cursor::Done => true,
        Cursor::Pending(k) => k < clues.len(),
        Cursor::Run(k, _) => k < clues.len(),
    }
}

/// The clue state a cursor stands for.
spec fn cursor_state(cur: Cursor, clues: Seq<u32>) -> Option<ClueState> {
    match cur {
        Cursor::Done => None,
        Cursor::Pending(k) => Some(ClueState::Pending(clues[k as int])),
        Cursor::Run(_, r) => Some(ClueState::InProgress(r)),
    }
}

/// The clues not yet started under a cursor.
spec fn cursor_clues(cur: Cursor, clues: Seq<u32>) -> Seq<u32> {
    match cur {
        Cursor::Done => clues.skip(clues.len() as int),
        Cursor::Pending(k) => clues.skip(k as int + 1),
        Cursor::Run(k, _) => clues.skip(k as int + 1),
    }
}

spec fn cursor_rank(cur: Cursor) -> int {
    match cur {
        Cursor::Pending(_) => 1,
        _ => 0,
    }
}

/// The clue state memoized under key `k`: the suffix count from an aligned
/// position, where clue `k` is the next to start (or all clues are consumed
/// when `k` is the clue count).
spec fn aligned_state(clues: Seq<u32>, k: int) -> Option<ClueState> {
    if k == clues.len() {
        None
    } else {
        Some(ClueState::Pending(clues[k]))
    }
}

/// The clues not yet started under memo key `k`.
spec fn aligned_clues(clues: Seq<u32>, k: int) -> Seq<u32> {
    if k == clues.len() {
        clues.skip(k)
    } else {
        clues.skip(k + 1)
    }
}

/// A memo entry is either empty or holds exactly the suffix count it is
/// keyed for.
spec fn memo_entry_ok(p: Seq<Bit>, clues: Seq<u32>, i: int, k: int, e: Option<u64>) -> bool {
    e matches Some(v) ==> v == arrangements_from(
        p.skip(i),
        aligned_state(clues, k),
        aligned_clues(clues, k),
    )
}

/// The memo table: one row per position of the padded pattern (including the
/// position one past its end), one column per clue suffix.
spec fn memo_wf(p: Seq<Bit>, clues: Seq<u32>, memo: Seq<Vec<Option<u64>>>) -> bool {
    &&& memo.len() == p.len() + 1
    &&& forall|i: int| 0 <= i < memo.len() ==> (#[trigger] memo[i])@.len() == clues.len() + 1
    &&& forall|i: int, k: int|
        0 <= i <= p.len() && 0 <= k <= clues.len() ==> memo_entry_ok(
            p,
            clues,
            i,
            k,
            #[trigger] memo[i]@[k],
        )
}

/// Memoized evaluation of [`arrangements_from`] on the suffix of `p` that
/// starts at `i`, with the clue state the cursor stands for.
fn count_at(
    p: &Vec<Bit>,
    clues: &Vec<u32>,
    i: usize,
    cur: Cursor,
    memo: &mut Vec<Vec<Option<u64>>>,
) -> (r: u64)
    requires
        i <= p@.len(),
        cursor_wf(cur, clues@),
        memo_wf(p@, clues@, old(memo)@),
        arrangements_from(p@.skip(i as int), cursor_state(cur, clues@), cursor_clues(cur, clues@))
            <= u64::MAX,
    ensures
        memo_wf(p@, clues@, final(memo)@),
        r == arrangements_from(
            p@.skip(i as int),
            cursor_state(cur, clues@),
            cursor_clues(cur, clues@),
        ),
    decreases p@.len() - i, 2int, 0int,
{
    let ghost st = cursor_state(cur, clues@);
    let ghost cl = cursor_clues(cur, clues@);
    // Aligned states (no run in flight) are the memoized ones.
    let key: Option<usize> = match cur {
        Cursor::Done => Some(clues.len()),
        Cursor::Pending(k) => Some(k),
        Cursor::Run(..) => None,
    };
    if let Some(k) = key {
        proof {
            assert(aligned_state(clues@, k as int) == st);
            assert(aligned_clues(clues@, k as int) == cl);
            assert(memo_entry_ok(p@, clues@, i as int, k as int, memo@[i as int]@[k as int]));
        }
        if let Some(v) = memo[i][k] {
            return v;
        }
    }
    let v: u64 = if i == p.len() {
        proof {
            assert(p@.skip(i as int).len() == 0);
        }
        match cur {
            Cursor::Done => 1,
            _ => 0,
        }
    } else {
        let b = p[i];
        proof {
            assert(p@.skip(i as int)[0] == p@[i as int]);
            assert(p@.skip(i as int).drop_first() =~= p@.skip(i as int + 1));
        }
        count_cell(p, clues, b, i, cur, memo)
    };
    if let Some(k) = key {
        memo[i].set(k, Some(v));
        proof {
            assert(aligned_state(clues@, k as int) == st);
            assert(aligned_clues(clues@, k as int) == cl);
            assert forall|i2: int, k2: int|
                0 <= i2 <= p@.len() && 0 <= k2 <= clues@.len() implies memo_entry_ok(
                p@,
                clues@,
                i2,
                k2,
                #[trigger] memo@[i2]@[k2],
            ) by {
                if i2 != i as int || k2 != k as int {
                    assert(memo_entry_ok(p@, clues@, i2, k2, old(memo)@[i2]@[k2]));
                }
            }
        }
    }
    v
}

/// Case analysis for the cell `b` standing at position `i` of `p`, mirroring
/// [`cell_arrangements`]; `b` is passed separately so that an `Unknown` cell
/// can be re-entered as `Block` and as `Gap`.
fn count_cell(
    p: &Vec<Bit>,
    clues: &Vec<u32>,
    b: Bit,
    i: usize,
    cur: Cursor,
    memo: &mut Vec<Vec<Option<u64>>>,
) -> (r: u64)
    requires
        i < p@.len(),
        cursor_wf(cur, clues@),
        memo_wf(p@, clues@, old(memo)@),
        cell_arrangements(
            b,
            p@.skip(i as int + 1),
            cursor_state(cur, clues@),
            cursor_clues(cur, clues@),
        ) <= u64::MAX,
    ensures
        memo_wf(p@, clues@, final(memo)@),
        r == cell_arrangements(
            b,
            p@.skip(i as int + 1),
            cursor_state(cur, clues@),
            cursor_clues(cur, clues@),
        ),
    decreases p@.len() - i, bit_rank(b), cursor_rank(cur),
{
    proof {
        // The views' lengths are the vectors' lengths, so `i + 1` and
        // `k + 1` fit in usize.
        assert(p@.len() == p.len());
        assert(clues@.len() == clues.len());
    }
    match b {
        Bit::Unknown => {
            let as_block = count_cell(p, clues, Bit::Block, i, cur, memo);
            let as_gap = count_cell(p, clues, Bit::Gap, i, cur, memo);
            as_block + as_gap
        },
        Bit::Block => match cur {
            Cursor::Done => 0,
            Cursor::Pending(k) => {
                let len = clues[k];
                count_cell(p, clues, Bit::Block, i, Cursor::Run(k, len), memo)
            },
            Cursor::Run(k, r) => {
                if r == 0 {
                    0
                } else {
                    count_at(p, clues, i + 1, Cursor::Run(k, r - 1), memo)
                }
            },
        },
        Bit::Gap => match cur {
            Cursor::Done => count_at(p, clues, i + 1, Cursor::Done, memo),
            Cursor::Pending(k) => count_at(p, clues, i + 1, Cursor::Pending(k), memo),
            Cursor::Run(k, r) => {
                if r != 0 {
                    0
                } else if k + 1 == clues.len() {
                    proof {
                        assert(clues@.skip(k as int + 1).len() == 0);
                        assert(clues@.skip(k as int + 1) =~= clues@.skip(clues@.len() as int));
                    }
                    count_at(p, clues, i + 1, Cursor::Done, memo)
                } else {
                    proof {
                        assert(clues@.skip(k as int + 1)[0] == clues@[k as int + 1]);
                        assert(clues@.skip(k as int + 1).drop_first() =~= clues@.skip(
                            k as int + 2,
                        ));
                    }
                    count_at(p, clues, i + 1, Cursor::Pending(k + 1), memo)
                }
            },
        },
    }
}

/// A row of empty memo entries.
fn none_row(len: usize) -> (row: Vec<Option<u64>>)
    ensures
        row@.len() == len,
        forall|j: int| 0 <= j < len ==> row@[j] is None,
{
    let mut row: Vec<Option<u64>> = Vec::new();
    let mut j: usize = 0;
    while j < len
        invariant
            j <= len,
            row@.len() == j,
            forall|j2: int| 0 <= j2 < j ==> row@[j2] is None,
        decreases len - j,
    {
        row.push(None);
        j = j + 1;
    }
    row
}

/// The arrangement counter: the number of resolutions of the record's
/// unknown cells whose maximal block runs realize the record's clues exactly,
/// in order.
///
/// A record whose clues cannot be satisfied yields 0; that is an answer, not
/// a failure, and no well-typed record is rejected. The count is computed by
/// the memoized recursion over the case table of [`cell_arrangements`], and
/// the memo table is private to the call, so repeated calls return the same
/// value. The recursion consumes at least one cell every two nested calls,
/// so its stack depth is proportional to the pattern length.
pub fn count(r: &Record) -> (n: u64)
    requires
        // Machine limits: the memo table takes one row per pattern position
        // and one column per clue, and the true count must fit the result.
        r.pattern@.len() + 2 <= usize::MAX,
        r.clues@.len() + 1 <= usize::MAX,
        record_arrangements(r.pattern@, r.clues@) <= u64::MAX,
    ensures
        n == record_arrangements(r.pattern@, r.clues@),
{
    // The padded pattern: the trailing gap sentinel bounds the final run.
    let mut cells: Vec<Bit> = Vec::new();
    let mut i: usize = 0;
    while i < r.pattern.len()
        invariant
            i <= r.pattern@.len(),
            cells@ =~= r.pattern@.take(i as int),
        decreases r.pattern@.len() - i,
    {
        let b = r.pattern[i];
        cells.push(b);
        i = i + 1;
    }
    proof {
        assert(cells@ =~= r.pattern@);
    }
    cells.push(Bit::Gap);

    let n = cells.len();
    let m = r.clues.len();
    let mut memo: Vec<Vec<Option<u64>>> = Vec::new();
    let mut row_nr: usize = 0;
    while row_nr <= n
        invariant
            n == cells@.len(),
            n <= usize::MAX - 1,
            m == r.clues@.len(),
            m <= usize::MAX - 1,
            row_nr <= n + 1,
            memo@.len() == row_nr,
            forall|i2: int| 0 <= i2 < row_nr ==> (#[trigger] memo@[i2])@.len() == m + 1,
            forall|i2: int, k2: int|
                0 <= i2 < row_nr && 0 <= k2 <= m ==> (#[trigger] memo@[i2]@[k2]) is None,
        decreases n + 1 - row_nr,
    {
        let row = none_row(m + 1);
        memo.push(row);
        row_nr = row_nr + 1;
    }
    proof {
        assert(memo_wf(cells@, r.clues@, memo@));
    }

    let start: Cursor = if m == 0 {
        Cursor::Done
    } else {
        Cursor::Pending(0)
    };
    proof {
        assert(cells@.skip(0) =~= cells@);
        assert(cursor_state(start, r.clues@) == initial_state(r.clues@));
        assert(cursor_clues(start, r.clues@) =~= later_clues(r.clues@));
    }
    count_at(&cells, &r.clues, 0, start, &mut memo)
}

} // verus!
