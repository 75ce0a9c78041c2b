use aoc23::driver::{total, unfold};
use aoc23::springs::{count, Bit, Record};

fn cells(pattern: &str) -> Vec<Bit> {
    pattern
        .chars()
        .map(|c| match c {
            '#' => Bit::Block,
            '.' => Bit::Gap,
            '?' => Bit::Unknown,
            _ => panic!("unexpected cell character"),
        })
        .collect()
}

fn record(pattern: &str, clues: &[u32]) -> Record {
    Record { pattern: cells(pattern), clues: clues.to_vec() }
}

/// The run lengths of a fully resolved assignment.
fn runs_of(v: &[Bit]) -> Vec<u32> {
    let mut runs = Vec::new();
    let mut cur: u32 = 0;
    for b in v {
        match b {
            Bit::Block => cur += 1,
            Bit::Gap => {
                if cur > 0 {
                    runs.push(cur);
                    cur = 0;
                }
            }
            Bit::Unknown => panic!("not resolved"),
        }
    }
    if cur > 0 {
        runs.push(cur);
    }
    runs
}

/// Counts satisfying resolutions by enumerating every assignment of the
/// unknown cells.
fn brute_force(r: &Record) -> u64 {
    let unknowns: Vec<usize> = r
        .pattern
        .iter()
        .enumerate()
        .filter(|(_, b)| **b == Bit::Unknown)
        .map(|(i, _)| i)
        .collect();
    assert!(unknowns.len() <= 20, "brute force only for small records");
    let mut found: u64 = 0;
    for mask in 0u32..(1u32 << unknowns.len()) {
        let mut v = r.pattern.clone();
        for (bit, pos) in unknowns.iter().enumerate() {
            v[*pos] = if mask & (1 << bit) != 0 { Bit::Block } else { Bit::Gap };
        }
        if runs_of(&v) == r.clues {
            found += 1;
        }
    }
    found
}

#[test]
fn scenario_resolved_row() {
    assert_eq!(1, count(&record("#.#..###", &[1, 1, 3])));
}

#[test]
fn scenario_three_unknowns() {
    assert_eq!(1, count(&record("???.###", &[1, 1, 3])));
}

#[test]
fn scenario_four_ways() {
    assert_eq!(4, count(&record(".??..??...?##.", &[1, 1, 3])));
}

#[test]
fn scenario_alternating() {
    assert_eq!(1, count(&record("?#?#?#?#?#?#?#?", &[1, 3, 1, 6])));
}

#[test]
fn scenario_anchored() {
    assert_eq!(1, count(&record("????.#...#...", &[4, 1, 1])));
}

#[test]
fn scenario_long_runs() {
    assert_eq!(4, count(&record("????.######..#####.", &[1, 6, 5])));
}

#[test]
fn scenario_ten_ways() {
    assert_eq!(10, count(&record("?###????????", &[3, 2, 1])));
}

fn sample_records() -> Vec<Record> {
    vec![
        record("???.###", &[1, 1, 3]),
        record(".??..??...?##.", &[1, 1, 3]),
        record("?#?#?#?#?#?#?#?", &[1, 3, 1, 6]),
        record("????.#...#...", &[4, 1, 1]),
        record("????.######..#####.", &[1, 6, 5]),
        record("?###????????", &[3, 2, 1]),
    ]
}

#[test]
fn aggregate_sample() {
    assert_eq!(21, total(&sample_records()));
}

#[test]
fn aggregate_sample_unfolded() {
    let unfolded: Vec<Record> = sample_records().iter().map(|r| unfold(r, 5)).collect();
    assert_eq!(525152, total(&unfolded));
}

#[test]
fn count_is_deterministic() {
    let r = record("?###????????", &[3, 2, 1]);
    let first = count(&r);
    let second = count(&r);
    assert_eq!(first, second);
    assert_eq!(first, count(&record("?###????????", &[3, 2, 1])));
}

#[test]
fn unfold_once_is_identity() {
    for r in sample_records() {
        let once = unfold(&r, 1);
        assert_eq!(r.pattern, once.pattern);
        assert_eq!(r.clues, once.clues);
        assert_eq!(count(&r), count(&once));
    }
}

#[test]
fn unfold_structure() {
    let r = record("?#", &[1]);
    let twice = unfold(&r, 2);
    assert_eq!(cells("?#??#"), twice.pattern);
    assert_eq!(vec![1, 1], twice.clues);
    let five = unfold(&r, 5);
    assert_eq!(cells("?#??#??#??#??#"), five.pattern);
    assert_eq!(vec![1, 1, 1, 1, 1], five.clues);
}

#[test]
fn empty_clue_list() {
    assert_eq!(1, count(&record("...", &[])));
    assert_eq!(1, count(&record("???", &[])));
    assert_eq!(1, count(&record("", &[])));
    assert_eq!(0, count(&record("..#.", &[])));
    assert_eq!(0, count(&record("?#?", &[])));
}

#[test]
fn empty_pattern() {
    assert_eq!(1, count(&record("", &[])));
    assert_eq!(0, count(&record("", &[1])));
}

#[test]
fn no_unknowns_is_zero_or_one() {
    assert_eq!(1, count(&record(".##.#", &[2, 1])));
    assert_eq!(0, count(&record(".##.#", &[1, 2])));
    assert_eq!(0, count(&record("###", &[2])));
    assert_eq!(0, count(&record("##", &[2, 1])));
}

#[test]
fn unsatisfiable_counts_zero() {
    assert_eq!(0, count(&record("??", &[3])));
    assert_eq!(0, count(&record("?.?", &[2])));
    assert_eq!(0, count(&record("???", &[1, 1, 1])));
    // A zero-length run can never appear, so a zero clue admits nothing.
    assert_eq!(0, count(&record("?", &[0])));
}

#[test]
fn matches_compatibility() {
    assert!(Bit::Unknown.matches(&Bit::Block));
    assert!(Bit::Unknown.matches(&Bit::Gap));
    assert!(Bit::Block.matches(&Bit::Unknown));
    assert!(Bit::Block.matches(&Bit::Block));
    assert!(!Bit::Block.matches(&Bit::Gap));
    assert!(!Bit::Gap.matches(&Bit::Block));
}

#[test]
fn matches_brute_force_small() {
    for (pattern, clues) in [
        ("?###????????", vec![3, 2, 1]),
        (".??..??...?##.", vec![1, 1, 3]),
        ("?????", vec![1, 1]),
        ("??????????", vec![2, 3]),
        ("????.#...#...", vec![4, 1, 1]),
        ("??", vec![]),
    ] {
        let r = record(pattern, &clues);
        assert_eq!(brute_force(&r), count(&r), "record {pattern} {clues:?}");
    }
}
