//! Where a recording is cut: at fixed intervals, or at detected silences.
//!
//! Times are microseconds; segment lengths are whole seconds.

use vstd::prelude::*;

use vstd::arithmetic::div_mod::{lemma_div_is_ordered, lemma_div_plus_one};

use crate::timing::MICROS_PER_SECOND;

verus! {

/// A sequence of times as integers.
pub open spec fn ints(s: Seq<u64>) -> Seq<int> {
    s.map_values(|t: u64| t as int)
}

/// The segment length in microseconds.
pub open spec fn segment_micros(segment_time: i32) -> int {
    segment_time as int * MICROS_PER_SECOND as int
}

/// Fixed-interval cuts: `seg, 2 seg, 3 seg, ...`, every multiple of `seg`
/// below `duration`.
pub open spec fn fixed_cuts(duration: int, seg: int) -> Seq<int> {
    let count = if duration > 0 && seg > 0 {
        ((duration - 1) / seg) as nat
    } else {
        0
    };
    Seq::new(count, |i: int| (i + 1) * seg)
}

/// The silence-aware walk from event `idx`, with the last cut at `last` and
/// `used == idx` exactly when the event before `idx` may not be cut at (it
/// already is a cut, or there is none).
///
/// An event no further than `seg` from the last cut is passed over. At one
/// further away, the walk cuts at the event before it when that one may be
/// taken and lies after the last cut, else at `last + seg`, and looks at the
/// same event again.
pub open spec fn cuts_from(sil: Seq<u64>, seg: int, idx: int, last: int, used: int) -> Seq<int>
    decreases sil.len() - idx, (if used == idx { 0int } else { 1int }), sil[idx] - last,
{
    if seg <= 0 || idx < 0 || idx >= sil.len() {
        seq![]
    } else if sil[idx] - last <= seg {
        cuts_from(sil, seg, idx + 1, last, used)
    } else if takes_previous(sil, idx, last, used) {
        seq![sil[idx - 1] as int] + cuts_from(sil, seg, idx, sil[idx - 1] as int, idx)
    } else {
        seq![last + seg] + cuts_from(sil, seg, idx, last + seg, used)
    }
}

/// At event `idx`, the walk may cut at the event before it: that one is not
/// a cut yet and lies after the last cut.
pub open spec fn takes_previous(sil: Seq<u64>, idx: int, last: int, used: int) -> bool {
    used != idx && sil[idx - 1] > last
}

/// Silence-aware cuts for the silence start times `sil`.
pub open spec fn silence_cuts(sil: Seq<u64>, seg: int) -> Seq<int> {
    cuts_from(sil, seg, 0, 0, 0)
}

/// Cut points every `segment_time` seconds over a recording of `duration`
/// microseconds; none when the recording fits in one segment.
pub fn fixed_split_points(duration: u64, segment_time: i32) -> (r: Vec<u64>)
    requires
        segment_time > 0,
    ensures
        ints(r@) == fixed_cuts(duration as int, segment_micros(segment_time)),
{
    let seg: u64 = segment_time as u64 * MICROS_PER_SECOND;
    let ghost s = seg as int;
    let mut cuts: Vec<u64> = Vec::new();
    let mut next: u64 = seg;
    assert(next == (cuts@.len() + 1) * s) by (nonlinear_arith)
        requires
            cuts@.len() == 0,
            next == s,
    ;
    loop
        invariant_except_break
            next == (cuts@.len() + 1) * s,
        invariant
            s == segment_micros(segment_time),
            s == seg,
            s > 0,
            cuts@.len() * s < duration || cuts@.len() == 0,
            forall|i: int| 0 <= i < cuts@.len() ==> cuts@[i] == (i + 1) * s,
        ensures
            cuts@.len() * s < duration || cuts@.len() == 0,
            (cuts@.len() + 1) * s >= duration,
            forall|i: int| 0 <= i < cuts@.len() ==> cuts@[i] == (i + 1) * s,
        decreases duration - cuts@.len() * s,
    {
        if next >= duration {
            break;
        }
        cuts.push(next);
        let ghost n = cuts@.len() as int;
        assert(n * s > (n - 1) * s && next == n * s && (n + 1) * s == n * s + s)
            by (nonlinear_arith)
            requires
                s > 0,
                n >= 1,
                next == ((n - 1) + 1) * s,
        ;
        match next.checked_add(seg) {
            Some(after) => {
                next = after;
                assert(next == (n + 1) * s) by (nonlinear_arith)
                    requires
                        next == n * s + s,
                ;
            },
            None => {
                assert((n + 1) * s > u64::MAX) by (nonlinear_arith)
                    requires
                        next == n * s,
                        next + s > u64::MAX,
                ;
                break;
            },
        }
    }
    let ghost k = cuts@.len() as int;
    let ghost d = duration as int;
    proof {
        if d > 0 {
            assert((d - 1) / s == k) by (nonlinear_arith)
                requires
                    k * s < d || k == 0,
                    (k + 1) * s >= d,
                    s > 0,
                    d > 0,
            ;
        }
    }
    assert(ints(cuts@) =~= fixed_cuts(duration as int, segment_micros(segment_time)));
    cuts
}

/// Silence-aware cut points for the silence start times `silences`, in the
/// order they were detected, with segments of at most `segment_time` seconds.
///
/// Each silence further than a segment from the last cut forces a cut: at the
/// silence before it where that one is not a cut yet and lies after the last
/// cut, else one segment after the last cut. Nothing is cut after the last
/// silence, and nothing at or before the start.
pub fn split_at_silences(silences: Vec<u64>, segment_time: i32) -> (r: Vec<u64>)
    requires
        segment_time > 0,
    ensures
        ints(r@) == silence_cuts(silences@, segment_micros(segment_time)),
{
    let seg: u64 = segment_time as u64 * MICROS_PER_SECOND;
    let ghost s = seg as int;
    let ghost sil = silences@;
    let mut cuts: Vec<u64> = Vec::new();
    let mut last: u64 = 0;
    let mut used: usize = 0;
    let mut idx: usize = 0;
    assert(ints(cuts@) + silence_cuts(sil, s) =~= silence_cuts(sil, s));
    while idx < silences.len()
        invariant
            sil == silences@,
            s == seg,
            s == segment_micros(segment_time),
            s > 0,
            used <= idx <= silences@.len(),
            ints(cuts@) + cuts_from(sil, s, idx as int, last as int, used as int) == silence_cuts(
                sil,
                s,
            ),
        decreases silences@.len() - idx, (if used == idx { 0int } else { 1int }), sil[idx as int]
            - last,
    {
        let ghost before = cuts@;
        let t = silences[idx];
        if t <= last || t - last <= seg {
            idx = idx + 1;
        } else if used != idx && silences[idx - 1] > last {
            let cut = silences[idx - 1];
            cuts.push(cut);
            last = cut;
            used = idx;
            assert(ints(cuts@) =~= ints(before) + seq![cut as int]);
        } else {
            let cut = last + seg;
            cuts.push(cut);
            last = cut;
            assert(ints(cuts@) =~= ints(before) + seq![cut as int]);
        }
    }
    assert(ints(cuts@) =~= silence_cuts(sil, s));
    cuts
}

/// Silence start times in the order the detector reports them.
pub open spec fn is_sorted(sil: Seq<u64>) -> bool {
    forall|i: int, j: int| 0 <= i <= j < sil.len() ==> sil[i] <= sil[j]
}

/// Each cut is at most `seg` after the one before it, the first at most
/// `seg` after `start`.
pub open spec fn gaps_within(c: Seq<int>, start: int, seg: int) -> bool {
    &&& (c.len() > 0 ==> c[0] - start <= seg)
    &&& forall|i: int| 0 < i < c.len() ==> #[trigger] c[i] - c[i - 1] <= seg
}

/// Each cut is later than the one before it, the first later than `start`.
pub open spec fn increasing_from(c: Seq<int>, start: int) -> bool {
    &&& (c.len() > 0 ==> start < c[0])
    &&& forall|i: int| 0 < i < c.len() ==> #[trigger] c[i - 1] < c[i]
}

/// The fixed-interval cuts of a recording of `duration` microseconds are
/// exactly the multiples `k * seg` with `0 < k * seg < duration`, in
/// increasing order.
pub proof fn lemma_fixed_cuts_are_multiples(duration: u64, segment_time: i32)
    requires
        duration > 0,
        segment_time > 0,
    ensures
        ({
            let seg = segment_micros(segment_time);
            let c = fixed_cuts(duration as int, seg);
            &&& forall|i: int, j: int| 0 <= i < j < c.len() ==> c[i] < c[j]
            &&& forall|i: int|
                0 <= i < c.len() ==> 0 < #[trigger] c[i] < duration && c[i] == (i + 1) * seg
            &&& forall|k: int|
                k > 0 && #[trigger] (k * seg) < duration ==> k <= c.len() && c[k - 1] == k * seg
        }),
{
    let seg = segment_micros(segment_time);
    let d = duration as int;
    let c = fixed_cuts(d, seg);
    assert forall|i: int, j: int| 0 <= i < j < c.len() implies c[i] < c[j] by {
        assert((i + 1) * seg < (j + 1) * seg) by (nonlinear_arith)
            requires
                i < j,
                seg > 0,
        ;
    }
    assert forall|i: int| 0 <= i < c.len() implies 0 < #[trigger] c[i] < duration && c[i] == (i
        + 1) * seg by {
        assert(0 < (i + 1) * seg < d) by (nonlinear_arith)
            requires
                0 <= i < (d - 1) / seg,
                seg > 0,
                d > 0,
        ;
    }
    assert forall|k: int| k > 0 && #[trigger] (k * seg) < duration implies k <= c.len() && c[k
        - 1] == k * seg by {
        assert(k <= (d - 1) / seg) by (nonlinear_arith)
            requires
                k > 0,
                k * seg <= d - 1,
                seg > 0,
        ;
    }
}

proof fn lemma_gaps_from(sil: Seq<u64>, seg: int, idx: int, last: int, used: int)
    requires
        seg > 0,
        0 <= used <= idx,
        used != idx ==> idx > 0 && sil[idx - 1] - last <= seg,
    ensures
        gaps_within(cuts_from(sil, seg, idx, last, used), last, seg),
    decreases sil.len() - idx, (if used == idx { 0int } else { 1int }), sil[idx] - last,
{
    let c = cuts_from(sil, seg, idx, last, used);
    if idx >= sil.len() {
    } else if sil[idx] - last <= seg {
        lemma_gaps_from(sil, seg, idx + 1, last, used);
    } else {
        let take = takes_previous(sil, idx, last, used);
        let cut = if take {
            sil[idx - 1] as int
        } else {
            last + seg
        };
        let used2 = if take {
            idx
        } else {
            used
        };
        let rest = cuts_from(sil, seg, idx, cut, used2);
        lemma_gaps_from(sil, seg, idx, cut, used2);
        assert(c == seq![cut] + rest);
        assert forall|i: int| 0 < i < c.len() implies #[trigger] c[i] - c[i - 1] <= seg by {
            if i > 1 {
                assert(rest[i - 1] - rest[i - 2] <= seg);
            }
        }
    }
}

/// Whatever silences are reported, no silence-aware segment is longer than
/// the segment length: the first cut is at most one segment after the start
/// of the recording, and each cut at most one segment after the one before.
pub proof fn lemma_silence_cut_gaps(silences: Seq<u64>, segment_time: i32)
    requires
        segment_time > 0,
    ensures
        gaps_within(silence_cuts(silences, segment_micros(segment_time)), 0, segment_micros(segment_time)),
{
    lemma_gaps_from(silences, segment_micros(segment_time), 0, 0, 0);
}

proof fn lemma_increasing_from(sil: Seq<u64>, seg: int, idx: int, last: int, used: int)
    requires
        seg > 0,
        is_sorted(sil),
        0 <= used <= idx,
        used != idx ==> idx > 0 && sil[idx - 1] - last <= seg,
    ensures
        increasing_from(cuts_from(sil, seg, idx, last, used), last),
        forall|i: int|
            0 <= i < cuts_from(sil, seg, idx, last, used).len() ==> #[trigger] cuts_from(
                sil,
                seg,
                idx,
                last,
                used,
            )[i] < sil.last(),
    decreases sil.len() - idx, (if used == idx { 0int } else { 1int }), sil[idx] - last,
{
    let c = cuts_from(sil, seg, idx, last, used);
    if idx >= sil.len() {
    } else if sil[idx] - last <= seg {
        lemma_increasing_from(sil, seg, idx + 1, last, used);
    } else {
        let take = takes_previous(sil, idx, last, used);
        let cut = if take {
            sil[idx - 1] as int
        } else {
            last + seg
        };
        let used2 = if take {
            idx
        } else {
            used
        };
        let rest = cuts_from(sil, seg, idx, cut, used2);
        assert(sil[idx] <= sil.last());
        lemma_increasing_from(sil, seg, idx, cut, used2);
        assert(c == seq![cut] + rest);
        assert forall|i: int| 0 < i < c.len() implies #[trigger] c[i - 1] < c[i] by {
            if i > 1 {
                assert(rest[i - 2] < rest[i - 1]);
            }
        }
        assert forall|i: int| 0 <= i < c.len() implies #[trigger] c[i] < sil.last() by {
            if i > 0 {
                assert(rest[i - 1] < sil.last());
            }
        }
    }
}

/// For silences reported in time order, the silence-aware cuts are strictly
/// increasing, later than the start, and earlier than the last silence, so
/// no two coincide, none lies at the start, and none lies past the last
/// reported event.
pub proof fn lemma_silence_cuts_increasing(silences: Seq<u64>, segment_time: i32)
    requires
        segment_time > 0,
        is_sorted(silences),
    ensures
        increasing_from(silence_cuts(silences, segment_micros(segment_time)), 0),
        forall|i: int|
            0 <= i < silence_cuts(silences, segment_micros(segment_time)).len() ==> #[trigger] silence_cuts(
                silences,
                segment_micros(segment_time),
            )[i] < silences.last(),
{
    lemma_increasing_from(silences, segment_micros(segment_time), 0, 0, 0);
}

proof fn lemma_count_from(sil: Seq<u64>, seg: int, idx: int, last: int, used: int)
    requires
        seg > 0,
        is_sorted(sil),
        sil.len() > 0,
        0 <= used <= idx <= sil.len(),
        0 <= last <= sil.last(),
    ensures
        cuts_from(sil, seg, idx, last, used).len() <= (sil.len() - idx) + (if used != idx {
            1int
        } else {
            0int
        }) + (sil.last() - last) / seg,
    decreases sil.len() - idx, (if used == idx { 0int } else { 1int }), sil[idx] - last,
{
    let m = sil.last() as int;
    if idx >= sil.len() {
        assert(0 <= (m - last) / seg) by (nonlinear_arith)
            requires
                m - last >= 0,
                seg > 0,
        ;
    } else if sil[idx] - last <= seg {
        lemma_count_from(sil, seg, idx + 1, last, used);
    } else if takes_previous(sil, idx, last, used) {
        let cut = sil[idx - 1] as int;
        assert(sil[idx - 1] <= m);
        lemma_count_from(sil, seg, idx, cut, idx);
        lemma_div_is_ordered(m - cut, m - last, seg);
    } else {
        let cut = last + seg;
        assert(sil[idx] <= m);
        lemma_count_from(sil, seg, idx, cut, used);
        lemma_div_plus_one(m - cut, seg);
    }
}

/// The silence-aware walk passes each silence once and otherwise makes a
/// cut, so for silences in time order its steps (passed silences plus cuts)
/// are at most twice the number of silences plus the number of whole
/// segments before the last silence.
pub proof fn lemma_silence_walk_steps(silences: Seq<u64>, segment_time: i32)
    requires
        segment_time > 0,
        is_sorted(silences),
    ensures
        silences.len() + silence_cuts(silences, segment_micros(segment_time)).len() <= 2
            * silences.len() + (if silences.len() > 0 {
            silences.last() as int / segment_micros(segment_time)
        } else {
            0
        }),
{
    if silences.len() > 0 {
        lemma_count_from(silences, segment_micros(segment_time), 0, 0, 0);
    }
}

/// The cut before cut `i` of `c`, with the walk starting at `start`.
pub open spec fn cut_before(c: Seq<int>, start: int, i: int) -> int {
    if i == 0 {
        start
    } else {
        c[i - 1]
    }
}

/// Some silence lies in `(prev, prev + seg]`, within one segment after `prev`.
pub open spec fn in_window(sil: Seq<u64>, prev: int, seg: int, j: int) -> bool {
    0 <= j < sil.len() && prev < sil[j] <= prev + seg
}

/// `cut` is the cut that follows `prev`: the latest silence within one
/// segment after `prev`, or, with none there, `prev + seg`; and the walk
/// cuts at all because the last silence lies more than a segment after
/// `prev`.
#[verifier::opaque]
pub open spec fn is_next_cut(sil: Seq<u64>, prev: int, seg: int, cut: int) -> bool {
    &&& sil.last() - prev > seg
    &&& {
        ||| {
            &&& exists|j: int| #[trigger] in_window(sil, prev, seg, j) && sil[j] == cut
            &&& forall|j: int| #[trigger] in_window(sil, prev, seg, j) ==> sil[j] <= cut
        }
        ||| {
            &&& forall|j: int| !#[trigger] in_window(sil, prev, seg, j)
            &&& cut == prev + seg
        }
    }
}

/// The cut the walk makes at event `idx` follows the last cut.
proof fn lemma_head_cut(sil: Seq<u64>, seg: int, idx: int, last: int, used: int)
    requires
        seg > 0,
        is_sorted(sil),
        0 <= used <= idx < sil.len(),
        forall|j: int| 0 <= j < idx ==> #[trigger] sil[j] <= last + seg,
        used == idx && idx > 0 ==> sil[idx - 1] <= last,
        sil[idx] - last > seg,
    ensures
        is_next_cut(
            sil,
            last,
            seg,
            if takes_previous(sil, idx, last, used) {
                sil[idx - 1] as int
            } else {
                last + seg
            },
        ),
{
    reveal(is_next_cut);
    let take = takes_previous(sil, idx, last, used);
    let cut = if take {
        sil[idx - 1] as int
    } else {
        last + seg
    };
    assert(sil[idx] <= sil.last());
    assert forall|j: int| #[trigger] in_window(sil, last, seg, j) implies j < idx && sil[j]
        <= sil[idx - 1] by {
        if j >= idx {
            assert(sil[idx] <= sil[j]);
        } else {
            assert(sil[j] <= sil[idx - 1]);
        }
    }
    if take {
        assert(in_window(sil, last, seg, idx - 1));
    } else {
        assert forall|j: int| !#[trigger] in_window(sil, last, seg, j) by {
            if in_window(sil, last, seg, j) {
                assert(sil[j] <= sil[idx - 1]);
            }
        }
    }
}

proof fn lemma_next_cuts_from(sil: Seq<u64>, seg: int, idx: int, last: int, used: int)
    requires
        seg > 0,
        is_sorted(sil),
        sil.len() > 0,
        0 <= used <= idx <= sil.len(),
        forall|j: int| 0 <= j < idx ==> #[trigger] sil[j] <= last + seg,
        used == idx && idx > 0 ==> sil[idx - 1] <= last,
    ensures
        forall|i: int|
            0 <= i < cuts_from(sil, seg, idx, last, used).len() ==> is_next_cut(
                sil,
                cut_before(cuts_from(sil, seg, idx, last, used), last, i),
                seg,
                #[trigger] cuts_from(sil, seg, idx, last, used)[i],
            ),
        sil.last() - cut_before(
            cuts_from(sil, seg, idx, last, used),
            last,
            cuts_from(sil, seg, idx, last, used).len() as int,
        ) <= seg,
    decreases sil.len() - idx, (if used == idx { 0int } else { 1int }), sil[idx] - last,
{
    let c = cuts_from(sil, seg, idx, last, used);
    let n = sil.len() as int;
    if idx >= n {
        assert(sil[n - 1] <= last + seg);
    } else if sil[idx] - last <= seg {
        lemma_next_cuts_from(sil, seg, idx + 1, last, used);
    } else {
        let take = takes_previous(sil, idx, last, used);
        let cut = if take {
            sil[idx - 1] as int
        } else {
            last + seg
        };
        let used2 = if take {
            idx
        } else {
            used
        };
        let rest = cuts_from(sil, seg, idx, cut, used2);
        lemma_head_cut(sil, seg, idx, last, used);
        assert forall|j: int| 0 <= j < idx implies #[trigger] sil[j] <= cut + seg by {}
        lemma_next_cuts_from(sil, seg, idx, cut, used2);
        assert(c == seq![cut] + rest);
        assert forall|i: int| 0 <= i < c.len() implies is_next_cut(
            sil,
            cut_before(c, last, i),
            seg,
            #[trigger] c[i],
        ) by {
            if i > 0 {
                assert(c[i] == rest[i - 1]);
                assert(cut_before(c, last, i) == cut_before(rest, cut, i - 1));
            }
        }
        assert(cut_before(c, last, c.len() as int) == cut_before(rest, cut, rest.len() as int));
    }
}

/// For silences in time order, the silence-aware walk says directly: each
/// cut is the latest silence within one segment after the cut before it (the
/// start of the recording for the first), or, with no silence there, one
/// segment after it; and a cut is made exactly while the last silence lies
/// more than a segment beyond the cut before. So between two silences more
/// than a segment apart, the cuts are one segment apart.
pub proof fn lemma_silence_cuts_direct(silences: Seq<u64>, segment_time: i32)
    requires
        segment_time > 0,
        is_sorted(silences),
        silences.len() > 0,
    ensures
        forall|i: int|
            0 <= i < silence_cuts(silences, segment_micros(segment_time)).len() ==> is_next_cut(
                silences,
                cut_before(silence_cuts(silences, segment_micros(segment_time)), 0, i),
                segment_micros(segment_time),
                #[trigger] silence_cuts(silences, segment_micros(segment_time))[i],
            ),
        silences.last() - cut_before(
            silence_cuts(silences, segment_micros(segment_time)),
            0,
            silence_cuts(silences, segment_micros(segment_time)).len() as int,
        ) <= segment_micros(segment_time),
{
    lemma_next_cuts_from(silences, segment_micros(segment_time), 0, 0, 0);
}

} // verus!
