//! Melody-analysis features from music information retrieval: Parsons code,
//! Huron's contour classes, and edit distance between interval sequences.

use vstd::prelude::*;
use vstd::string::StringExecFns;

use crate::{NoteEvent, Phrase};

verus! {

/// Huron's nine melodic-contour categories, from the ordering of a phrase's
/// first pitch, the mean of its pitches, and its last pitch.
#[derive(Debug, Clone, Copy, PartialEq, Eq, Structural)]
pub enum HuronContour {
    /// first < mean < last
    Ascending,
    /// first > mean > last
    Descending,
    /// first < mean > last (an arch)
    ConvexArch,
    /// first > mean < last (a valley)
    ConcaveValley,
    /// first ≈ mean ≈ last
    Horizontal,
    /// first ≈ mean < last
    HorizontalAscending,
    /// first ≈ mean > last
    HorizontalDescending,
    /// first < mean ≈ last
    AscendingHorizontal,
    /// first > mean ≈ last
    DescendingHorizontal,
    /// Fewer than two notes — no contour.
    Undefined,
}

/// The Parsons letter for the step from `a` to `b`: up, down or repeat.
pub open spec fn parsons_step(a: NoteEvent, b: NoteEvent) -> char {
    if b.pitch.0 > a.pitch.0 {
        'U'
    } else if b.pitch.0 < a.pitch.0 {
        'D'
    } else {
        'R'
    }
}

/// Parsons code: `*` for the first note, then one letter per step.
pub open spec fn parsons_spec(events: Seq<NoteEvent>) -> Seq<char> {
    if events.len() == 0 {
        Seq::empty()
    } else {
        seq!['*'] + Seq::new(
            (events.len() - 1) as nat,
            |i: int| parsons_step(events[i], events[i + 1]),
        )
    }
}

/// The Parsons letter for a step, as a string.
fn parsons_letter(a: u8, b: u8) -> (r: &'static str)
    ensures
        r@ == seq![
            if b > a {
                'U'
            } else if b < a {
                'D'
            } else {
                'R'
            },
        ],
{
    proof {
        reveal_strlit("U");
        reveal_strlit("D");
        reveal_strlit("R");
    }
    if b > a {
        "U"
    } else if b < a {
        "D"
    } else {
        "R"
    }
}

/// Sum of the pitches of a run of events.
pub open spec fn pitch_sum(events: Seq<NoteEvent>) -> int
    decreases events.len(),
{
    if events.len() == 0 {
        0
    } else {
        pitch_sum(events.drop_last()) + events.last().pitch.0
    }
}

/// Compare `x / n` with `y / n`, treating values within half a semitone as
/// equal: -1 below, 0 equal, 1 above.
pub open spec fn compare_scaled(x: int, y: int, n: int) -> int {
    if 2 * (x - y) <= n && 2 * (y - x) <= n {
        0
    } else if x < y {
        -1
    } else {
        1
    }
}

/// The contour class for the comparisons first-vs-mean and mean-vs-last.
pub open spec fn huron_class(first_vs_mean: int, mean_vs_last: int) -> HuronContour {
    if first_vs_mean < 0 && mean_vs_last < 0 {
        HuronContour::Ascending
    } else if first_vs_mean > 0 && mean_vs_last > 0 {
        HuronContour::Descending
    } else if first_vs_mean < 0 && mean_vs_last > 0 {
        HuronContour::ConvexArch
    } else if first_vs_mean > 0 && mean_vs_last < 0 {
        HuronContour::ConcaveValley
    } else if first_vs_mean == 0 && mean_vs_last == 0 {
        HuronContour::Horizontal
    } else if first_vs_mean == 0 && mean_vs_last < 0 {
        HuronContour::HorizontalAscending
    } else if first_vs_mean == 0 {
        HuronContour::HorizontalDescending
    } else if first_vs_mean < 0 {
        HuronContour::AscendingHorizontal
    } else {
        HuronContour::DescendingHorizontal
    }
}

/// Huron's contour of a run of events: the first pitch, the mean pitch and the
/// last pitch compared with a tolerance of half a semitone.
pub open spec fn huron_spec(events: Seq<NoteEvent>) -> HuronContour {
    if events.len() < 2 {
        HuronContour::Undefined
    } else {
        let n = events.len() as int;
        let sum = pitch_sum(events);
        let first = events[0].pitch.0 * n;
        let last = events.last().pitch.0 * n;
        huron_class(compare_scaled(first, sum, n), compare_scaled(sum, last, n))
    }
}

/// Executable `compare_scaled`.
fn compare_scaled_exec(x: u128, y: u128, n: u128) -> (r: i8)
    requires
        x <= 0x1_0000_0000_0000_0000_0000,
        y <= 0x1_0000_0000_0000_0000_0000,
    ensures
        r == compare_scaled(x as int, y as int, n as int),
{
    let diff = if x >= y {
        x - y
    } else {
        y - x
    };
    if 2 * diff <= n {
        0
    } else if x < y {
        -1
    } else {
        1
    }
}

impl Phrase {
    /// Parsons code: melodic contour as a string of `U`/`D`/`R` (up/down/repeat),
    /// prefixed with `*` for the first note. Empty for an empty phrase.
    pub fn parsons_code(&self) -> (r: String)
        ensures
            r@ == parsons_spec(self.events@),
    {
        let mut s = String::new();
        let n = self.events.len();
        if n == 0 {
            return s;
        }
        proof {
            reveal_strlit("*");
        }
        s.append("*");
        let ghost codes = Seq::new(
            (n - 1) as nat,
            |i: int| parsons_step(self.events@[i], self.events@[i + 1]),
        );
        let mut i: usize = 1;
        while i < n
            invariant
                1 <= i <= n,
                n == self.events@.len(),
                codes == Seq::new(
                    (n - 1) as nat,
                    |i: int| parsons_step(self.events@[i], self.events@[i + 1]),
                ),
                s@ == seq!['*'] + codes.take(i - 1),
            decreases n - i,
        {
            let ghost before = s@;
            s.append(parsons_letter(self.events[i - 1].pitch.0, self.events[i].pitch.0));
            assert(codes.take(i as int) =~= codes.take(i - 1).push(codes[i - 1]));
            assert(s@ =~= seq!['*'] + codes.take(i as int));
            i = i + 1;
        }
        assert(codes.take(n - 1) =~= codes);
        s
    }

    /// Huron's nine-type contour classification (first vs mean vs last pitch),
    /// with heights within half a semitone treated as equal. The comparison is
    /// exact: `first` against `mean` is decided on `first * n` against the pitch sum.
    pub fn huron_contour(&self) -> (r: HuronContour)
        ensures
            r == huron_spec(self.events@),
    {
        let n = self.events.len();
        if n < 2 {
            return HuronContour::Undefined;
        }
        let mut sum: u128 = 0;
        let mut i: usize = 0;
        while i < n
            invariant
                i <= n,
                n == self.events@.len(),
                sum == pitch_sum(self.events@.take(i as int)),
                sum <= 255 * i,
            decreases n - i,
        {
            assert(self.events@.take(i + 1).drop_last() =~= self.events@.take(i as int));
            sum = sum + self.events[i].pitch.0 as u128;
            i = i + 1;
        }
        assert(self.events@.take(n as int) =~= self.events@);
        let nn = n as u128;
        let f = self.events[0].pitch.0 as u128;
        let l = self.events[n - 1].pitch.0 as u128;
        assert(f * nn <= 255 * nn) by (nonlinear_arith)
            requires
                f <= 255,
        ;
        assert(l * nn <= 255 * nn) by (nonlinear_arith)
            requires
                l <= 255,
        ;
        let first = f * nn;
        let last = l * nn;
        let a = compare_scaled_exec(first, sum, nn);
        let b = compare_scaled_exec(sum, last, nn);
        if a < 0 && b < 0 {
            HuronContour::Ascending
        } else if a > 0 && b > 0 {
            HuronContour::Descending
        } else if a < 0 && b > 0 {
            HuronContour::ConvexArch
        } else if a > 0 && b < 0 {
            HuronContour::ConcaveValley
        } else if a == 0 && b == 0 {
            HuronContour::Horizontal
        } else if a == 0 && b < 0 {
            HuronContour::HorizontalAscending
        } else if a == 0 {
            HuronContour::HorizontalDescending
        } else if a < 0 {
            HuronContour::AscendingHorizontal
        } else {
            HuronContour::DescendingHorizontal
        }
    }
}

/// Parsons code does not depend on the key: transposing every pitch by the
/// same amount leaves it unchanged.
pub proof fn lemma_parsons_transposition_invariant(a: Seq<NoteEvent>, b: Seq<NoteEvent>, shift: int)
    requires
        a.len() == b.len(),
        forall|i: int| 0 <= i < a.len() ==> b[i].pitch.0 == a[i].pitch.0 + shift,
    ensures
        parsons_spec(a) == parsons_spec(b),
{
    if a.len() > 0 {
        let ca = Seq::new((a.len() - 1) as nat, |i: int| parsons_step(a[i], a[i + 1]));
        let cb = Seq::new((b.len() - 1) as nat, |i: int| parsons_step(b[i], b[i + 1]));
        assert forall|i: int| 0 <= i < ca.len() implies ca[i] == cb[i] by {
            assert(b[i].pitch.0 == a[i].pitch.0 + shift);
            assert(b[i + 1].pitch.0 == a[i + 1].pitch.0 + shift);
        }
        assert(ca =~= cb);
    }
}

/// The Parsons code has one letter per note.
pub proof fn lemma_parsons_length(events: Seq<NoteEvent>)
    ensures
        parsons_spec(events).len() == events.len(),
{
}

proof fn lemma_pitch_sum_shift(a: Seq<NoteEvent>, b: Seq<NoteEvent>, shift: int)
    requires
        a.len() == b.len(),
        forall|i: int| 0 <= i < a.len() ==> b[i].pitch.0 == a[i].pitch.0 + shift,
    ensures
        pitch_sum(b) == pitch_sum(a) + a.len() * shift,
    decreases a.len(),
{
    if a.len() > 0 {
        lemma_pitch_sum_shift(a.drop_last(), b.drop_last(), shift);
        assert(b.last().pitch.0 == a.last().pitch.0 + shift);
        assert((a.len() - 1) * shift + shift == a.len() * shift) by (nonlinear_arith);
    }
}

/// Huron's contour does not depend on the key: transposing every pitch by the
/// same amount leaves the class unchanged.
pub proof fn lemma_huron_transposition_invariant(a: Seq<NoteEvent>, b: Seq<NoteEvent>, shift: int)
    requires
        a.len() == b.len(),
        forall|i: int| 0 <= i < a.len() ==> b[i].pitch.0 == a[i].pitch.0 + shift,
    ensures
        huron_spec(a) == huron_spec(b),
{
    if a.len() >= 2 {
        lemma_pitch_sum_shift(a, b, shift);
        let n = a.len() as int;
        assert(b[0].pitch.0 == a[0].pitch.0 + shift);
        assert(b.last().pitch.0 == a.last().pitch.0 + shift);
        assert(b[0].pitch.0 * n == a[0].pitch.0 * n + n * shift) by (nonlinear_arith)
            requires
                b[0].pitch.0 == a[0].pitch.0 + shift,
        ;
        assert(b.last().pitch.0 * n == a.last().pitch.0 * n + n * shift) by (nonlinear_arith)
            requires
                b.last().pitch.0 == a.last().pitch.0 + shift,
        ;
    }
}

/// The smaller of two numbers.
pub open spec fn min_nat(a: nat, b: nat) -> nat {
    if a <= b {
        a
    } else {
        b
    }
}

/// Levenshtein distance: the fewest insertions, deletions and substitutions
/// turning `a` into `b`.
pub open spec fn edit_distance(a: Seq<i8>, b: Seq<i8>) -> nat
    decreases a.len() + b.len(),
{
    if a.len() == 0 {
        b.len()
    } else if b.len() == 0 {
        a.len()
    } else {
        let cost: nat = if a.last() == b.last() {
            0
        } else {
            1
        };
        min_nat(
            min_nat(
                edit_distance(a.drop_last(), b.drop_last()) + cost,
                edit_distance(a.drop_last(), b) + 1,
            ),
            edit_distance(a, b.drop_last()) + 1,
        )
    }
}

/// Levenshtein distance between two slices (two-row dynamic programme,
/// O(len_a * len_b) time, O(len_b) space).
pub fn levenshtein(a: &[i8], b: &[i8]) -> (r: usize)
    requires
        a@.len() < usize::MAX,
        b@.len() < usize::MAX,
    ensures
        r == edit_distance(a@, b@),
{
    if a.len() == 0 {
        return b.len();
    }
    if b.len() == 0 {
        return a.len();
    }
    let m = b.len();
    let mut prev: Vec<usize> = Vec::new();
    let mut j: usize = 0;
    while j <= m
        invariant
            j <= m + 1,
            m == b@.len(),
            m < usize::MAX,
            prev@.len() == j,
            forall|k: int| 0 <= k < j ==> prev@[k] == k,
        decreases m + 1 - j,
    {
        prev.push(j);
        j = j + 1;
    }
    proof {
        assert forall|k: int| 0 <= k <= m implies prev@[k] == edit_distance(a@.take(0), b@.take(k)) by {
            assert(a@.take(0).len() == 0);
        }
    }
    let mut curr: Vec<usize> = Vec::new();
    let mut j: usize = 0;
    while j <= m
        invariant
            j <= m + 1,
            m == b@.len(),
            m < usize::MAX,
            curr@.len() == j,
        decreases m + 1 - j,
    {
        curr.push(0);
        j = j + 1;
    }
    let n = a.len();
    let mut i: usize = 0;
    while i < n
        invariant
            i <= n,
            n == a@.len(),
            n < usize::MAX,
            m == b@.len(),
            m < usize::MAX,
            prev@.len() == m + 1,
            curr@.len() == m + 1,
            forall|k: int| 0 <= k <= m ==> prev@[k] == edit_distance(a@.take(i as int), b@.take(k)),
        decreases n - i,
    {
        let ghost ai = a@.take(i as int);
        let ghost ai1 = a@.take(i + 1);
        assert(ai1.drop_last() =~= ai);
        assert(ai1.last() == a@[i as int]);
        assert(b@.take(0).len() == 0);
        curr.set(0, i + 1);
        let mut j: usize = 0;
        while j < m
            invariant
                j <= m,
                i < n,
                n == a@.len(),
                n < usize::MAX,
                m == b@.len(),
                m < usize::MAX,
                ai == a@.take(i as int),
                ai1 == a@.take(i + 1),
                ai1.drop_last() == ai,
                ai1.last() == a@[i as int],
                prev@.len() == m + 1,
                curr@.len() == m + 1,
                forall|k: int| 0 <= k <= m ==> prev@[k] == edit_distance(ai, b@.take(k)),
                forall|k: int| 0 <= k <= j ==> curr@[k] == edit_distance(ai1, b@.take(k)),
            decreases m - j,
        {
            proof {
                lemma_edit_distance_bounds(ai, b@.take(j as int));
                lemma_edit_distance_bounds(ai, b@.take(j + 1));
                lemma_edit_distance_bounds(ai1, b@.take(j as int));
            }
            let cost: usize = if a[i] == b[j] {
                0
            } else {
                1
            };
            let sub = prev[j] + cost;
            let del = prev[j + 1] + 1;
            let ins = curr[j] + 1;
            let best1 = if sub <= del {
                sub
            } else {
                del
            };
            let best = if best1 <= ins {
                best1
            } else {
                ins
            };
            proof {
                let bj1 = b@.take(j + 1);
                assert(bj1.drop_last() =~= b@.take(j as int));
                assert(bj1.last() == b@[j as int]);
                assert(edit_distance(ai1, bj1) == best);
            }
            curr.set(j + 1, best);
            j = j + 1;
        }
        std::mem::swap(&mut prev, &mut curr);
        i = i + 1;
    }
    assert(a@.take(n as int) =~= a@);
    assert(b@.take(m as int) =~= b@);
    prev[m]
}

/// The distance from a sequence to itself is zero.
pub proof fn lemma_edit_distance_self(a: Seq<i8>)
    ensures
        edit_distance(a, a) == 0,
    decreases a.len(),
{
    if a.len() > 0 {
        lemma_edit_distance_self(a.drop_last());
    }
}

/// Edit distance is symmetric.
pub proof fn lemma_edit_distance_symmetric(a: Seq<i8>, b: Seq<i8>)
    ensures
        edit_distance(a, b) == edit_distance(b, a),
    decreases a.len() + b.len(),
{
    if a.len() > 0 && b.len() > 0 {
        lemma_edit_distance_symmetric(a.drop_last(), b.drop_last());
        lemma_edit_distance_symmetric(a.drop_last(), b);
        lemma_edit_distance_symmetric(a, b.drop_last());
    }
}

/// Edit distance is zero exactly between equal sequences.
pub proof fn lemma_edit_distance_zero_iff_equal(a: Seq<i8>, b: Seq<i8>)
    ensures
        edit_distance(a, b) == 0 <==> a == b,
    decreases a.len() + b.len(),
{
    if a == b {
        lemma_edit_distance_self(a);
    } else if a.len() > 0 && b.len() > 0 {
        if edit_distance(a, b) == 0 {
            lemma_edit_distance_zero_iff_equal(a.drop_last(), b.drop_last());
            assert(a.last() == b.last());
            assert(a.drop_last() == b.drop_last());
            assert(a =~= a.drop_last().push(a.last()));
            assert(b =~= b.drop_last().push(b.last()));
            assert(a =~= b);
        }
    } else if a.len() == 0 && b.len() == 0 {
        assert(a =~= b);
    }
}

/// Turning one interval into another costs nothing when they are equal and
/// exactly one substitution when they differ.
pub proof fn lemma_edit_distance_single(x: i8, y: i8)
    ensures
        edit_distance(seq![x], seq![y]) == if x == y {
            0nat
        } else {
            1nat
        },
{
    let a = seq![x];
    let b = seq![y];
    assert(a.drop_last() =~= Seq::<i8>::empty());
    assert(b.drop_last() =~= Seq::<i8>::empty());
    assert(edit_distance(a.drop_last(), b.drop_last()) == 0);
    assert(edit_distance(a.drop_last(), b) == 1);
    assert(edit_distance(a, b.drop_last()) == 1);
}

/// Appending one interval to a sequence is exactly one edit away from it.
pub proof fn lemma_edit_distance_append_one(a: Seq<i8>, x: i8)
    ensures
        edit_distance(a, a.push(x)) == 1,
{
    let b = a.push(x);
    lemma_edit_distance_bounds(a, b);
    lemma_edit_distance_self(a);
    assert(b.drop_last() =~= a);
    if a.len() > 0 {
        assert(edit_distance(a, b) <= edit_distance(a, b.drop_last()) + 1);
    }
}

/// The number of positions at which two sequences of the same length differ.
pub open spec fn mismatches(a: Seq<i8>, b: Seq<i8>) -> nat
    decreases a.len(),
{
    if a.len() == 0 || b.len() == 0 {
        0
    } else {
        mismatches(a.drop_last(), b.drop_last()) + if a.last() == b.last() {
            0nat
        } else {
            1nat
        }
    }
}

/// Between sequences of the same length, substituting each differing position
/// is a valid edit, so the distance is at most the number of mismatches.
pub proof fn lemma_edit_distance_at_most_mismatches(a: Seq<i8>, b: Seq<i8>)
    requires
        a.len() == b.len(),
    ensures
        edit_distance(a, b) <= mismatches(a, b),
    decreases a.len(),
{
    if a.len() > 0 {
        lemma_edit_distance_at_most_mismatches(a.drop_last(), b.drop_last());
    }
}

/// Edit distance never exceeds the longer length, and is at least the
/// difference of the lengths.
pub proof fn lemma_edit_distance_bounds(a: Seq<i8>, b: Seq<i8>)
    ensures
        edit_distance(a, b) <= if a.len() >= b.len() {
            a.len()
        } else {
            b.len()
        },
        edit_distance(a, b) >= a.len() - b.len(),
        edit_distance(a, b) >= b.len() - a.len(),
    decreases a.len() + b.len(),
{
    if a.len() > 0 && b.len() > 0 {
        lemma_edit_distance_bounds(a.drop_last(), b.drop_last());
        lemma_edit_distance_bounds(a.drop_last(), b);
        lemma_edit_distance_bounds(a, b.drop_last());
    }
}


/// Ticks per sixteenth-note grid step.
pub const GRID_STEP_TICKS: u32 = 120;

/// Grid slots per bar.
pub const GRID_SLOTS: usize = 16;

/// Absolute onset tick of event `i`: the rests before every event up to `i`
/// plus the durations of every event before it.
pub open spec fn onset_tick(events: Seq<NoteEvent>, i: int) -> int
    decreases i,
{
    if i <= 0 {
        events[0].tick_offset as int
    } else {
        onset_tick(events, i - 1) + events[i].tick_offset + events[i - 1].duration.0
    }
}

/// The sixteenth-note grid slot (within its bar) of event `i`'s onset.
pub open spec fn onset_slot(events: Seq<NoteEvent>, i: int) -> int {
    (onset_tick(events, i) / GRID_STEP_TICKS as int) % GRID_SLOTS as int
}

/// Metric weight of a grid slot: downbeat 4, half bar 3, quarter 2, eighth 1,
/// sixteenth 0.
pub open spec fn slot_weight(slot: int) -> int {
    if slot % 16 == 0 {
        4
    } else if slot % 8 == 0 {
        3
    } else if slot % 4 == 0 {
        2
    } else if slot % 2 == 0 {
        1
    } else {
        0
    }
}

/// Some event of the phrase has its onset in `slot`.
pub open spec fn slot_occupied(events: Seq<NoteEvent>, slot: int) -> bool {
    exists|j: int| 0 <= j < events.len() && #[trigger] onset_slot(events, j) == slot
}

/// How many grid slots lie strictly between slot `a` and slot `b`, going
/// forward around the bar (15 when they are the same slot).
pub open spec fn slots_between(a: int, b: int) -> int {
    if b > a {
        b - a - 1
    } else {
        b + 15 - a
    }
}

/// The largest weight gain over slot `a` among the empty slots in the first
/// `k` slots after `a`, or 0 when none is stronger.
pub open spec fn best_gain(events: Seq<NoteEvent>, a: int, k: int) -> int
    decreases k,
{
    if k <= 0 {
        0
    } else {
        let prev = best_gain(events, a, k - 1);
        let slot = (a + k) % 16;
        if !slot_occupied(events, slot) && slot_weight(slot) - slot_weight(a) > prev {
            slot_weight(slot) - slot_weight(a)
        } else {
            prev
        }
    }
}

/// The syncopation of the step from event `i` to event `i + 1`: the strongest
/// empty slot between their onsets, measured against the first onset's slot.
pub open spec fn step_syncopation(events: Seq<NoteEvent>, i: int) -> int {
    let a = onset_slot(events, i);
    best_gain(events, a, slots_between(a, onset_slot(events, i + 1)))
}

/// Summed syncopation of the first `m` steps.
pub open spec fn syncopation_upto(events: Seq<NoteEvent>, m: int) -> int
    decreases m,
{
    if m <= 0 {
        0
    } else {
        syncopation_upto(events, m - 1) + step_syncopation(events, m - 1)
    }
}

/// The summed Longuet-Higgins & Lee style syncopation strength of a phrase
/// (0 for fewer than two notes).
pub open spec fn syncopation_sum_spec(events: Seq<NoteEvent>) -> int {
    if events.len() < 2 {
        0
    } else {
        syncopation_upto(events, events.len() - 1)
    }
}

/// The onset ticks of a phrase fit in 32 bits.
pub open spec fn onsets_fit(events: Seq<NoteEvent>) -> bool {
    events.len() >= 2 ==> onset_tick(events, events.len() - 1) <= u32::MAX
}

proof fn lemma_onset_monotone(events: Seq<NoteEvent>, i: int, j: int)
    requires
        0 <= i <= j < events.len(),
    ensures
        onset_tick(events, i) <= onset_tick(events, j),
    decreases j - i,
{
    if i < j {
        lemma_onset_monotone(events, i, j - 1);
    }
}

/// The slot `d` places after slot `a`, going forward around the bar.
pub open spec fn slot_after(a: int, d: int) -> int {
    (a + d) % 16
}

/// Some empty slot within the first `k` slots after `a` gains exactly `g` in
/// metric weight over `a`.
pub open spec fn some_gap_gains(events: Seq<NoteEvent>, a: int, k: int, g: int) -> bool {
    exists|d: int|
        1 <= d <= k && !slot_occupied(events, #[trigger] slot_after(a, d)) && g == slot_weight(
            slot_after(a, d),
        ) - slot_weight(a)
}

proof fn lemma_best_gain_is_max(events: Seq<NoteEvent>, a: int, k: int)
    requires
        k >= 0,
    ensures
        0 <= best_gain(events, a, k) <= 4,
        forall|d: int|
            1 <= d <= k && !slot_occupied(events, #[trigger] slot_after(a, d)) ==> best_gain(
                events,
                a,
                k,
            ) >= slot_weight(slot_after(a, d)) - slot_weight(a),
        best_gain(events, a, k) == 0 || some_gap_gains(events, a, k, best_gain(events, a, k)),
    decreases k,
{
    if k > 0 {
        lemma_best_gain_is_max(events, a, k - 1);
        let prev = best_gain(events, a, k - 1);
        let s = slot_after(a, k);
        assert(s == (a + k) % 16);
        assert(0 <= slot_weight(s) <= 4);
        assert(0 <= slot_weight(a) <= 4);
        if !slot_occupied(events, s) && slot_weight(s) - slot_weight(a) > prev {
            assert(some_gap_gains(events, a, k, best_gain(events, a, k)));
        } else if prev != 0 {
            let d0 = choose|d: int|
                1 <= d <= k - 1 && !slot_occupied(events, #[trigger] slot_after(a, d)) && prev
                    == slot_weight(slot_after(a, d)) - slot_weight(a);
            assert(1 <= d0 <= k && !slot_occupied(events, slot_after(a, d0)));
        }
    }
}

/// The syncopation of one step is the strongest empty slot strictly between
/// the two onsets, measured against the first onset's slot: it is at least the
/// gain of every such empty slot, it is the gain of one of them unless it is 0,
/// and so it lies between 0 and 4 (the largest metric-weight difference).
pub proof fn lemma_step_syncopation_is_strongest_gap(events: Seq<NoteEvent>, i: int)
    requires
        0 <= i < events.len() - 1,
    ensures
        0 <= step_syncopation(events, i) <= 4,
        forall|d: int|
            1 <= d <= slots_between(onset_slot(events, i), onset_slot(events, i + 1))
                && !slot_occupied(events, #[trigger] slot_after(onset_slot(events, i), d))
                ==> step_syncopation(events, i) >= slot_weight(slot_after(onset_slot(events, i), d))
                - slot_weight(onset_slot(events, i)),
        step_syncopation(events, i) == 0 || some_gap_gains(
            events,
            onset_slot(events, i),
            slots_between(onset_slot(events, i), onset_slot(events, i + 1)),
            step_syncopation(events, i),
        ),
{
    let a = onset_slot(events, i);
    let b = onset_slot(events, i + 1);
    assert(0 <= a < 16 && 0 <= b < 16);
    lemma_best_gain_is_max(events, a, slots_between(a, b));
}

proof fn lemma_syncopation_upto_bounds(events: Seq<NoteEvent>, m: int)
    requires
        0 <= m <= events.len() - 1,
    ensures
        0 <= syncopation_upto(events, m) <= 4 * m,
    decreases m,
{
    if m > 0 {
        lemma_syncopation_upto_bounds(events, m - 1);
        lemma_step_syncopation_is_strongest_gap(events, m - 1);
    }
}

proof fn lemma_syncopation_upto_covers(events: Seq<NoteEvent>, m: int, i: int)
    requires
        0 <= i < m <= events.len() - 1,
    ensures
        step_syncopation(events, i) <= syncopation_upto(events, m),
    decreases m,
{
    lemma_syncopation_upto_bounds(events, m - 1);
    lemma_step_syncopation_is_strongest_gap(events, m - 1);
    if i < m - 1 {
        lemma_syncopation_upto_covers(events, m - 1, i);
    }
}

/// Each step between consecutive notes adds at most 4 to the syncopation sum,
/// so a phrase of `n` notes scores between 0 and `4 * (n - 1)`; and every
/// step's syncopation is counted, so none exceeds the sum.
pub proof fn lemma_syncopation_sum_bounds(events: Seq<NoteEvent>)
    ensures
        0 <= syncopation_sum_spec(events),
        events.len() >= 2 ==> syncopation_sum_spec(events) <= 4 * (events.len() - 1),
        events.len() < 2 ==> syncopation_sum_spec(events) == 0,
        forall|i: int|
            0 <= i < events.len() - 1 ==> #[trigger] step_syncopation(events, i)
                <= syncopation_sum_spec(events),
{
    if events.len() >= 2 {
        lemma_syncopation_upto_bounds(events, events.len() - 1);
        assert forall|i: int| 0 <= i < events.len() - 1 implies #[trigger] step_syncopation(
            events,
            i,
        ) <= syncopation_sum_spec(events) by {
            lemma_syncopation_upto_covers(events, events.len() - 1, i);
        }
    }
}

/// Executable `slot_weight`.
fn weight_of(slot: usize) -> (r: i32)
    ensures
        r == slot_weight(slot as int),
{
    if slot % 16 == 0 {
        4
    } else if slot % 8 == 0 {
        3
    } else if slot % 4 == 0 {
        2
    } else if slot % 2 == 0 {
        1
    } else {
        0
    }
}

impl Phrase {
    /// The summed Longuet-Higgins & Lee (1984) style syncopation strength.
    ///
    /// Onsets are quantized to a 16th-note grid within 4/4 bars (1920 ticks per
    /// bar, 120 per 16th). A syncopation is a note whose onset is followed,
    /// before the next onset, by an empty slot of greater metric weight; its
    /// strength is the largest such weight difference. Dividing the sum by the
    /// note count gives the normalized syncopation index (0 = perfectly on-beat).
    pub fn syncopation_sum(&self) -> (r: u128)
        requires
            onsets_fit(self.events@),
        ensures
            r == syncopation_sum_spec(self.events@),
    {
        let n = self.events.len();
        if n < 2 {
            return 0;
        }
        let ghost ev = self.events@;
        let mut slots: Vec<usize> = Vec::new();
        let mut cursor: u32 = 0;
        let mut prev_dur: u32 = 0;
        let mut i: usize = 0;
        while i < n
            invariant
                i <= n,
                n == ev.len(),
                ev == self.events@,
                n >= 2,
                onset_tick(ev, n - 1) <= u32::MAX,
                slots@.len() == i,
                forall|k: int| 0 <= k < i ==> slots@[k] == onset_slot(ev, k),
                forall|k: int| 0 <= k < i ==> slots@[k] < 16,
                i > 0 ==> cursor == onset_tick(ev, i - 1),
                i > 0 ==> prev_dur == ev[i - 1].duration.0,
            decreases n - i,
        {
            let e = self.events[i];
            proof {
                lemma_onset_monotone(ev, i as int, n - 1);
            }
            let step: u32 = if i == 0 {
                e.tick_offset
            } else {
                e.tick_offset + prev_dur
            };
            cursor = if i == 0 {
                step
            } else {
                cursor + step
            };
            slots.push(((cursor / GRID_STEP_TICKS) as usize) % GRID_SLOTS);
            prev_dur = e.duration.0;
            i = i + 1;
        }
        let mut occupied: Vec<bool> = Vec::new();
        let mut s: usize = 0;
        while s < 16
            invariant
                s <= 16,
                occupied@.len() == s,
                forall|t: int| 0 <= t < s ==> !occupied@[t],
            decreases 16 - s,
        {
            occupied.push(false);
            s = s + 1;
        }
        let mut k: usize = 0;
        while k < n
            invariant
                k <= n,
                n == ev.len(),
                slots@.len() == n,
                forall|j: int| 0 <= j < n ==> slots@[j] == onset_slot(ev, j),
                forall|j: int| 0 <= j < n ==> slots@[j] < 16,
                occupied@.len() == 16,
                forall|t: int|
                    0 <= t < 16 ==> (occupied@[t] <==> exists|j: int|
                        0 <= j < k && #[trigger] onset_slot(ev, j) == t),
            decreases n - k,
        {
            let ghost before = occupied@;
            occupied.set(slots[k], true);
            assert forall|t: int|
                0 <= t < 16 implies (occupied@[t] <==> exists|j: int|
                    0 <= j < k + 1 && #[trigger] onset_slot(ev, j) == t) by {
                if t == slots@[k as int] {
                    assert(onset_slot(ev, k as int) == t);
                } else {
                    assert(occupied@[t] == before[t]);
                    if exists|j: int| 0 <= j < k + 1 && #[trigger] onset_slot(ev, j) == t {
                        let j = choose|j: int| 0 <= j < k + 1 && #[trigger] onset_slot(ev, j) == t;
                        assert(j < k);
                    }
                }
            }
            k = k + 1;
        }
        assert forall|t: int| 0 <= t < 16 implies occupied@[t] == slot_occupied(ev, t) by {}
        let mut score: u128 = 0;
        let mut i: usize = 0;
        while i + 1 < n
            invariant
                i + 1 <= n,
                n == ev.len(),
                slots@.len() == n,
                forall|j: int| 0 <= j < n ==> slots@[j] == onset_slot(ev, j),
                forall|j: int| 0 <= j < n ==> slots@[j] < 16,
                occupied@.len() == 16,
                forall|t: int| 0 <= t < 16 ==> occupied@[t] == slot_occupied(ev, t),
                score == syncopation_upto(ev, i as int),
                score <= 4 * i,
            decreases n - i,
        {
            let a = slots[i];
            let b = slots[i + 1];
            let count: usize = if b > a {
                b - a - 1
            } else {
                b + 15 - a
            };
            let wa = weight_of(a);
            let mut best: i32 = 0;
            let mut step: usize = 1;
            while step <= count
                invariant
                    1 <= step <= count + 1,
                    count <= 15,
                    a < 16,
                    wa == slot_weight(a as int),
                    occupied@.len() == 16,
                    forall|t: int| 0 <= t < 16 ==> occupied@[t] == slot_occupied(ev, t),
                    best == best_gain(ev, a as int, step - 1),
                    0 <= best <= 4,
                decreases count + 1 - step,
            {
                let slot = (a + step) % GRID_SLOTS;
                if !occupied[slot] {
                    let gain = weight_of(slot) - wa;
                    if gain > best {
                        best = gain;
                    }
                }
                step = step + 1;
            }
            score = score + best as u128;
            i = i + 1;
        }
        score
    }
}


/// How many of the first `m` events have pitch class `c`.
pub open spec fn class_count(events: Seq<NoteEvent>, c: int, m: int) -> nat
    decreases m,
{
    if m <= 0 {
        0
    } else {
        class_count(events, c, m - 1) + if events[m - 1].pitch.0 % 12 == c {
            1nat
        } else {
            0nat
        }
    }
}

/// Sum over the pitch classes below `c` of their counts among the first `m` events.
pub open spec fn classes_total(events: Seq<NoteEvent>, c: int, m: int) -> nat
    decreases c,
{
    if c <= 0 {
        0
    } else {
        classes_total(events, c - 1, m) + class_count(events, c - 1, m)
    }
}

proof fn lemma_classes_total_step(events: Seq<NoteEvent>, c: int, m: int)
    requires
        0 <= c <= 12,
        0 < m <= events.len(),
    ensures
        classes_total(events, c, m) == classes_total(events, c, m - 1) + if events[m - 1].pitch.0 % 12
            < c {
            1nat
        } else {
            0nat
        },
    decreases c,
{
    if c > 0 {
        lemma_classes_total_step(events, c - 1, m);
    }
}

/// Every note falls in exactly one pitch class: the twelve class counts add up
/// to the number of notes (so the normalized histogram sums to one).
pub proof fn lemma_pitch_classes_cover(events: Seq<NoteEvent>)
    ensures
        classes_total(events, 12, events.len() as int) == events.len(),
    decreases events.len(),
{
    lemma_pitch_classes_cover_prefix(events, events.len() as int);
}

proof fn lemma_classes_total_empty(events: Seq<NoteEvent>, c: int)
    ensures
        classes_total(events, c, 0) == 0,
    decreases c,
{
    if c > 0 {
        lemma_classes_total_empty(events, c - 1);
    }
}

proof fn lemma_pitch_classes_cover_prefix(events: Seq<NoteEvent>, m: int)
    requires
        0 <= m <= events.len(),
    ensures
        classes_total(events, 12, m) == m,
    decreases m,
{
    if m == 0 {
        lemma_classes_total_empty(events, 12);
    } else {
        lemma_classes_total_step(events, 12, m);
        lemma_pitch_classes_cover_prefix(events, m - 1);
    }
}

impl Phrase {
    /// Pitch-class counts: how many notes fall in each of the 12 pitch classes
    /// (C, C#, …, B). Divided by the note count they give the chroma histogram.
    pub fn pitch_class_counts(&self) -> (r: Vec<usize>)
        ensures
            r@.len() == 12,
            forall|c: int| 0 <= c < 12 ==> r@[c] == class_count(self.events@, c, self.events@.len() as int),
    {
        let ghost ev = self.events@;
        let mut counts: Vec<usize> = Vec::new();
        let mut c: usize = 0;
        while c < 12
            invariant
                c <= 12,
                counts@.len() == c,
                forall|t: int| 0 <= t < c ==> counts@[t] == 0,
            decreases 12 - c,
        {
            counts.push(0);
            c = c + 1;
        }
        let n = self.events.len();
        let mut i: usize = 0;
        while i < n
            invariant
                i <= n,
                n == ev.len(),
                ev == self.events@,
                counts@.len() == 12,
                forall|t: int| 0 <= t < 12 ==> counts@[t] == class_count(ev, t, i as int),
                forall|t: int| 0 <= t < 12 ==> counts@[t] <= i,
            decreases n - i,
        {
            let k = self.events[i].pitch.note_class() as usize;
            let v = counts[k];
            counts.set(k, v + 1);
            i = i + 1;
        }
        counts
    }
}

/// Number of interval classes: intervals clamped to [-12, 12] semitones.
pub const N_BUCKETS: usize = 25;

/// The interval class of an interval: clamped to an octave either way, then
/// shifted to 0..=24.
pub open spec fn bucket_of(i: int) -> int {
    if i < -12 {
        0
    } else if i > 12 {
        24
    } else {
        i + 12
    }
}

/// The interval class of an interval.
pub fn interval_bucket(i: i8) -> (r: usize)
    ensures
        r == bucket_of(i as int),
        r < N_BUCKETS,
{
    if i < -12 {
        0
    } else if i > 12 {
        24
    } else {
        (i + 12) as usize
    }
}

/// How many of the first `m` consecutive interval pairs of `iv` go from class
/// `p` to class `q`.
pub open spec fn pair_count(iv: Seq<int>, p: int, q: int, m: int) -> nat
    decreases m,
{
    if m <= 0 {
        0
    } else {
        pair_count(iv, p, q, m - 1) + if bucket_of(iv[m - 1]) == p && bucket_of(iv[m]) == q {
            1nat
        } else {
            0nat
        }
    }
}

/// How many consecutive interval pairs of `iv` go from class `p` to class `q`.
pub open spec fn pairs_in(iv: Seq<int>, p: int, q: int) -> nat {
    if iv.len() < 2 {
        0
    } else {
        pair_count(iv, p, q, iv.len() - 1)
    }
}

/// How many consecutive interval pairs in the first `m` phrases go from class
/// `p` to class `q`.
pub open spec fn corpus_pairs(corpus: Seq<Phrase>, p: int, q: int, m: int) -> nat
    decreases m,
{
    if m <= 0 {
        0
    } else {
        corpus_pairs(corpus, p, q, m - 1) + pairs_in(crate::intervals_spec(corpus[m - 1].events@), p, q)
    }
}

/// Every phrase of the corpus has its intervals in `i8` range, and no
/// transition count overflows 32 bits.
pub open spec fn corpus_fits(corpus: Seq<Phrase>) -> bool {
    &&& forall|k: int| 0 <= k < corpus.len() ==> crate::intervals_fit(#[trigger] corpus[k].events@)
    &&& forall|p: int, q: int|
        0 <= p < 25 && 0 <= q < 25 ==> 1 + #[trigger] corpus_pairs(corpus, p, q, corpus.len() as int)
            <= u32::MAX
}

proof fn lemma_corpus_pairs_monotone(corpus: Seq<Phrase>, p: int, q: int, m1: int, m2: int)
    requires
        0 <= m1 <= m2,
    ensures
        corpus_pairs(corpus, p, q, m1) <= corpus_pairs(corpus, p, q, m2),
    decreases m2 - m1,
{
    if m1 < m2 {
        lemma_corpus_pairs_monotone(corpus, p, q, m1, m2 - 1);
    }
}

proof fn lemma_pair_count_monotone(iv: Seq<int>, p: int, q: int, m1: int, m2: int)
    requires
        0 <= m1 <= m2,
    ensures
        pair_count(iv, p, q, m1) <= pair_count(iv, p, q, m2),
    decreases m2 - m1,
{
    if m1 < m2 {
        lemma_pair_count_monotone(iv, p, q, m1, m2 - 1);
    }
}

/// Some phrase of the corpus, among its first `m`, has an interval of class
/// `p` immediately followed by an interval of class `q`.
pub open spec fn has_transition(corpus: Seq<Phrase>, p: int, q: int, m: int) -> bool {
    exists|k: int, w: int|
        0 <= k < m && 0 <= w && w + 1 < crate::intervals_spec(corpus[k].events@).len()
            && bucket_of(#[trigger] crate::intervals_spec(corpus[k].events@)[w]) == p && bucket_of(
            crate::intervals_spec(corpus[k].events@)[w + 1],
        ) == q
}

proof fn lemma_pair_count_positive(iv: Seq<int>, p: int, q: int, m: int)
    requires
        0 <= m,
        m + 1 <= iv.len(),
    ensures
        pair_count(iv, p, q, m) > 0 <==> exists|w: int|
            0 <= w < m && bucket_of(#[trigger] iv[w]) == p && bucket_of(iv[w + 1]) == q,
    decreases m,
{
    if m > 0 {
        lemma_pair_count_positive(iv, p, q, m - 1);
        if bucket_of(iv[m - 1]) == p && bucket_of(iv[m]) == q {
            assert(0 <= m - 1 < m && bucket_of(iv[m - 1]) == p && bucket_of(iv[(m - 1) + 1]) == q);
        }
        if pair_count(iv, p, q, m) == 0 {
            assert forall|w: int| 0 <= w < m implies !(bucket_of(#[trigger] iv[w]) == p && bucket_of(
                iv[w + 1],
            ) == q) by {
                if w == m - 1 {
                } else {
                    assert(0 <= w < m - 1);
                }
            }
        }
    }
}

proof fn lemma_pairs_in_positive(iv: Seq<int>, p: int, q: int)
    ensures
        pairs_in(iv, p, q) > 0 <==> exists|w: int|
            0 <= w && w + 1 < iv.len() && bucket_of(#[trigger] iv[w]) == p && bucket_of(iv[w + 1])
                == q,
{
    if iv.len() >= 2 {
        lemma_pair_count_positive(iv, p, q, iv.len() - 1);
    }
}

proof fn lemma_corpus_pairs_positive(corpus: Seq<Phrase>, p: int, q: int, m: int)
    requires
        0 <= m <= corpus.len(),
    ensures
        corpus_pairs(corpus, p, q, m) > 0 <==> has_transition(corpus, p, q, m),
    decreases m,
{
    if m > 0 {
        lemma_corpus_pairs_positive(corpus, p, q, m - 1);
        let iv = crate::intervals_spec(corpus[m - 1].events@);
        lemma_pairs_in_positive(iv, p, q);
        if pairs_in(iv, p, q) > 0 {
            let w = choose|w: int|
                0 <= w && w + 1 < iv.len() && bucket_of(#[trigger] iv[w]) == p && bucket_of(iv[w + 1])
                    == q;
            assert(0 <= m - 1 < m && bucket_of(crate::intervals_spec(corpus[m - 1].events@)[w]) == p);
        }
        if has_transition(corpus, p, q, m) && !has_transition(corpus, p, q, m - 1) {
            let (k, w) = choose|k: int, w: int|
                0 <= k < m && 0 <= w && w + 1 < crate::intervals_spec(corpus[k].events@).len()
                    && bucket_of(#[trigger] crate::intervals_spec(corpus[k].events@)[w]) == p
                    && bucket_of(crate::intervals_spec(corpus[k].events@)[w + 1]) == q;
            if k < m - 1 {
                assert(has_transition(corpus, p, q, m - 1));
            }
            assert(k == m - 1);
            assert(bucket_of(iv[w]) == p);
        }
    }
}

/// The table counts forward transitions: a pair of classes `p` then `q` is
/// counted (its entry exceeds the smoothing 1) exactly when some phrase of the
/// corpus has an interval of class `p` immediately followed by one of class `q`.
pub proof fn lemma_transition_counted_iff_present(corpus: Seq<Phrase>, p: int, q: int)
    ensures
        corpus_pairs(corpus, p, q, corpus.len() as int) > 0 <==> has_transition(
            corpus,
            p,
            q,
            corpus.len() as int,
        ),
{
    lemma_corpus_pairs_positive(corpus, p, q, corpus.len() as int);
}

/// In a corpus of one three-note phrase, whose intervals are `x` then `y`, the
/// only transition counted is the one from the class of `x` to the class of
/// `y`, and it is counted once.
pub proof fn lemma_transition_single_step(corpus: Seq<Phrase>, p: int, q: int)
    requires
        corpus.len() == 1,
        corpus[0].events@.len() == 3,
    ensures
        corpus_pairs(corpus, p, q, 1) == if p == bucket_of(
            crate::interval_spec(corpus[0].events@[0], corpus[0].events@[1]),
        ) && q == bucket_of(crate::interval_spec(corpus[0].events@[1], corpus[0].events@[2])) {
            1nat
        } else {
            0nat
        },
{
    let iv = crate::intervals_spec(corpus[0].events@);
    assert(iv.len() == 2);
    assert(iv[0] == crate::interval_spec(corpus[0].events@[0], corpus[0].events@[1]));
    assert(iv[1] == crate::interval_spec(corpus[0].events@[1], corpus[0].events@[2]));
    assert(pair_count(iv, p, q, 0) == 0);
    assert(corpus_pairs(corpus, p, q, 0) == 0);
}

/// The first-order interval transition table of a corpus, Laplace-smoothed:
/// entry `p * 25 + q` is one plus the number of times an interval of class `p`
/// is followed by one of class `q` within a phrase.
pub fn transition_counts(corpus: &[Phrase]) -> (r: Vec<u32>)
    requires
        corpus_fits(corpus@),
    ensures
        r@.len() == N_BUCKETS * N_BUCKETS,
        forall|p: int, q: int|
            0 <= p < 25 && 0 <= q < 25 ==> r@[p * 25 + q] == 1 + corpus_pairs(
                corpus@,
                p,
                q,
                corpus@.len() as int,
            ),
{
    let mut counts: Vec<u32> = Vec::new();
    let mut c: usize = 0;
    while c < N_BUCKETS * N_BUCKETS
        invariant
            c <= 625,
            counts@.len() == c,
            forall|t: int| 0 <= t < c ==> counts@[t] == 1,
        decreases 625 - c,
    {
        counts.push(1);
        c = c + 1;
    }
    let total = corpus.len();
    let mut k: usize = 0;
    while k < total
        invariant
            k <= total,
            total == corpus@.len(),
            corpus_fits(corpus@),
            counts@.len() == 625,
            forall|p: int, q: int|
                0 <= p < 25 && 0 <= q < 25 ==> counts@[p * 25 + q] == 1 + corpus_pairs(
                    corpus@,
                    p,
                    q,
                    k as int,
                ),
        decreases total - k,
    {
        assert(crate::intervals_fit(corpus@[k as int].events@));
        let iv = corpus[k].intervals();
        let ghost ivs = crate::intervals_spec(corpus@[k as int].events@);
        assert(iv@.len() == ivs.len());
        let ghost base = counts@;
        let m = iv.len();
        if m >= 2 {
            let mut w: usize = 0;
            while w + 1 < m
                invariant
                    w + 1 <= m,
                    m == iv@.len(),
                    m == ivs.len(),
                    forall|t: int| 0 <= t < m ==> iv@[t] == ivs[t],
                    ivs == crate::intervals_spec(corpus@[k as int].events@),
                    k < total,
                    total == corpus@.len(),
                    corpus_fits(corpus@),
                    counts@.len() == 625,
                    forall|p: int, q: int|
                        0 <= p < 25 && 0 <= q < 25 ==> counts@[p * 25 + q] == 1 + corpus_pairs(
                            corpus@,
                            p,
                            q,
                            k as int,
                        ) + pair_count(ivs, p, q, w as int),
                decreases m - w,
            {
                let p = interval_bucket(iv[w]);
                let q = interval_bucket(iv[w + 1]);
                let idx = p * 25 + q;
                proof {
                    assert(iv@[w as int] == ivs[w as int]);
                    assert(iv@[w + 1] == ivs[w + 1]);
                    assert(bucket_of(ivs[w as int]) == p && bucket_of(ivs[w + 1]) == q);
                    assert(pair_count(ivs, p as int, q as int, w + 1) == pair_count(ivs, p as int, q as int, w as int) + 1);
                    lemma_pair_count_monotone(ivs, p as int, q as int, w + 1, m - 1);
                    lemma_corpus_pairs_monotone(corpus@, p as int, q as int, k + 1, total as int);
                    assert(corpus_pairs(corpus@, p as int, q as int, k + 1) == corpus_pairs(
                        corpus@,
                        p as int,
                        q as int,
                        k as int,
                    ) + pairs_in(ivs, p as int, q as int));
                    assert(1 + corpus_pairs(corpus@, p as int, q as int, total as int) <= u32::MAX);
                }
                let v = counts[idx];
                counts.set(idx, v + 1);
                proof {
                    assert forall|p2: int, q2: int|
                        0 <= p2 < 25 && 0 <= q2 < 25 implies counts@[p2 * 25 + q2] == 1
                            + corpus_pairs(corpus@, p2, q2, k as int) + pair_count(
                            ivs,
                            p2,
                            q2,
                            w + 1,
                        ) by {
                        assert(pair_count(ivs, p2, q2, w + 1) == pair_count(ivs, p2, q2, w as int) + if bucket_of(ivs[w as int]) == p2 && bucket_of(ivs[w + 1]) == q2 { 1nat } else { 0nat });
                        if p2 != p || q2 != q {
                            assert(p2 * 25 + q2 != p * 25 + q);
                        }
                    }
                }
                w = w + 1;
            }
        }
        assert forall|p: int, q: int|
            0 <= p < 25 && 0 <= q < 25 implies counts@[p * 25 + q] == 1 + #[trigger] corpus_pairs(
                corpus@,
                p,
                q,
                k + 1,
            ) by {
            assert(corpus_pairs(corpus@, p, q, k + 1) == corpus_pairs(corpus@, p, q, k as int)
                + pairs_in(ivs, p, q));
        }
        k = k + 1;
    }
    counts
}

} // verus!
