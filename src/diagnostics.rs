//! Reading the text that the transcoder and the prober print.

use vstd::prelude::*;

use crate::error::SegmentError;
use crate::timing::{parse_seconds, parsed_seconds};

verus! {

/// `needle` stands in `hay` at `i`.
pub open spec fn matches_at(hay: Seq<u8>, needle: Seq<u8>, i: int) -> bool {
    0 <= i && i + needle.len() <= hay.len() && hay.subrange(i, i + needle.len()) == needle
}

/// The first place at or after `i` where `needle` stands in `hay`.
pub open spec fn find_from(hay: Seq<u8>, needle: Seq<u8>, i: int) -> Option<int>
    decreases hay.len() + 1 - i,
{
    if i < 0 || i + needle.len() > hay.len() {
        None
    } else if matches_at(hay, needle, i) {
        Some(i)
    } else {
        find_from(hay, needle, i + 1)
    }
}

/// A place that the search finds is one where the needle stands.
pub proof fn lemma_find_from_matches(hay: Seq<u8>, needle: Seq<u8>, k: int)
    ensures
        find_from(hay, needle, k) matches Some(i) ==> k <= i && matches_at(hay, needle, i),
    decreases hay.len() + 1 - k,
{
    if !(k < 0 || k + needle.len() > hay.len()) && !matches_at(hay, needle, k) {
        lemma_find_from_matches(hay, needle, k + 1);
    }
}

/// The first place where `needle` stands in `hay`.
pub open spec fn first_match(hay: Seq<u8>, needle: Seq<u8>) -> Option<int> {
    find_from(hay, needle, 0)
}

/// The end of the line that starts at `i`: the next newline, or the end.
pub open spec fn line_end(s: Seq<u8>, i: int) -> int
    decreases s.len() - i,
{
    if i < 0 || i >= s.len() {
        s.len() as int
    } else if s[i] == 10u8 {
        i
    } else {
        line_end(s, i + 1)
    }
}

/// A line ends at or after its start and within the text.
pub proof fn lemma_line_end_bounds(s: Seq<u8>, i: int)
    requires
        0 <= i <= s.len(),
    ensures
        i <= line_end(s, i) <= s.len(),
    decreases s.len() - i,
{
    if i < s.len() && s[i] != 10u8 {
        lemma_line_end_bounds(s, i + 1);
    }
}

/// The marker of a detected silence: `silence_start:`.
pub open spec fn silence_marker() -> Seq<u8> {
    seq!['s' as u8, 'i' as u8, 'l' as u8, 'e' as u8, 'n' as u8, 'c' as u8, 'e' as u8, '_' as u8, 's' as u8, 't' as u8, 'a' as u8, 'r' as u8, 't' as u8, ':' as u8]
}

/// The marker of a recognised input: `Input #0`.
pub open spec fn input_marker() -> Seq<u8> {
    seq!['I' as u8, 'n' as u8, 'p' as u8, 'u' as u8, 't' as u8, ' ' as u8, '#' as u8, '0' as u8]
}

/// What one line says of a silence: nothing (`None`), a start time, or a
/// marker followed by text that is no time (`Some(None)`).
pub open spec fn line_silence(line: Seq<u8>) -> Option<Option<u64>> {
    match first_match(line, silence_marker()) {
        None => None,
        Some(i) => Some(parsed_seconds(line.skip(i + silence_marker().len()))),
    }
}

/// The silence start times in the lines of `s` from `start` on, in order;
/// `None` when one of them is no time.
pub open spec fn silences_from(s: Seq<u8>, start: int) -> Option<Seq<u64>>
    decreases s.len() + 1 - start,
{
    if start < 0 || start >= s.len() {
        Some(seq![])
    } else {
        let e = line_end(s, start);
        proof {
            lemma_line_end_bounds(s, start);
        }
        let rest = silences_from(s, e + 1);
        match line_silence(s.subrange(start, e)) {
            None => rest,
            Some(None) => None,
            Some(Some(t)) => match rest {
                Some(r) => Some(seq![t] + r),
                None => None,
            },
        }
    }
}

fn matches_here(hay: &[u8], needle: &[u8], i: usize) -> (r: bool)
    requires
        i + needle@.len() <= hay@.len(),
    ensures
        r == matches_at(hay@, needle@, i as int),
{
    let n = hay.len();
    let mut j: usize = 0;
    while j < needle.len()
        invariant
            n == hay@.len(),
            i + needle@.len() <= hay@.len(),
            j <= needle@.len(),
            forall|k: int| 0 <= k < j ==> hay@[i + k] == needle@[k],
        decreases needle@.len() - j,
    {
        if hay[i + j] != needle[j] {
            assert(hay@.subrange(i as int, i + needle@.len())[j as int] != needle@[j as int]);
            return false;
        }
        j = j + 1;
    }
    assert(hay@.subrange(i as int, i + needle@.len()) =~= needle@);
    true
}

/// The first place where `needle` stands in `hay`.
pub fn find(hay: &[u8], needle: &[u8]) -> (r: Option<usize>)
    ensures
        match r {
            Some(i) => first_match(hay@, needle@) == Some(i as int),
            None => first_match(hay@, needle@) is None,
        },
{
    if needle.len() > hay.len() {
        return None;
    }
    let last = hay.len() - needle.len();
    let mut i: usize = 0;
    while i <= last
        invariant
            last == hay@.len() - needle@.len(),
            i <= last + 1,
            find_from(hay@, needle@, 0) == find_from(hay@, needle@, i as int),
        decreases last + 1 - i,
    {
        if matches_here(hay, needle, i) {
            return Some(i);
        }
        if i == last {
            return None;
        }
        i = i + 1;
    }
    None
}

/// The end of the line of `s` that starts at `start`.
pub fn find_line_end(s: &[u8], start: usize) -> (r: usize)
    requires
        start <= s@.len(),
    ensures
        r == line_end(s@, start as int),
        start <= r <= s@.len(),
{
    let mut i = start;
    while i < s.len() && s[i] != 10
        invariant
            start <= i <= s@.len(),
            line_end(s@, start as int) == line_end(s@, i as int),
        decreases s@.len() - i,
    {
        i = i + 1;
    }
    i
}

fn silence_marker_bytes() -> (r: Vec<u8>)
    ensures
        r@ == silence_marker(),
{
    let r = vec!['s' as u8, 'i' as u8, 'l' as u8, 'e' as u8, 'n' as u8, 'c' as u8, 'e' as u8, '_' as u8, 's' as u8, 't' as u8, 'a' as u8, 'r' as u8, 't' as u8, ':' as u8];
    assert(r@ =~= silence_marker());
    r
}

/// `acc` followed by what `rest` holds, when it holds something.
pub open spec fn prefixed(acc: Seq<u64>, rest: Option<Seq<u64>>) -> Option<Seq<u64>> {
    match rest {
        Some(r) => Some(acc + r),
        None => None,
    }
}

/// The silence start times, in microseconds, that the transcoder's
/// silence-detection output reports, one for each line with a
/// `silence_start:` marker, in the order of the lines.
pub fn silence_points(stderr: &[u8]) -> (r: Result<Vec<u64>, SegmentError>)
    ensures
        match r {
            Ok(v) => silences_from(stderr@, 0) == Some(v@),
            Err(e) => silences_from(stderr@, 0) is None && e == SegmentError::BadSilenceTime,
        },
{
    let marker = silence_marker_bytes();
    let mut out: Vec<u64> = Vec::new();
    let mut start: usize = 0;
    assert(prefixed(out@, silences_from(stderr@, 0)) =~= silences_from(stderr@, 0)) by {
        if silences_from(stderr@, 0) is Some {
            assert(out@ + silences_from(stderr@, 0).unwrap() =~= silences_from(stderr@, 0).unwrap());
        }
    }
    while start < stderr.len()
        invariant
            marker@ == silence_marker(),
            start <= stderr@.len(),
            silences_from(stderr@, 0) == prefixed(out@, silences_from(stderr@, start as int)),
        decreases stderr@.len() - start,
    {
        let e = find_line_end(stderr, start);
        let line = &stderr[start..e];
        let ghost before = out@;
        let ghost rest = silences_from(stderr@, e + 1);
        match find(line, marker.as_slice()) {
            None => {},
            Some(i) => {
                proof {
                    lemma_find_from_matches(line@, marker@, 0);
                }
                let text = &line[i + marker.len()..line.len()];
                assert(text@ =~= line@.skip(i + silence_marker().len()));
                match parse_seconds(text) {
                    Some(t) => {
                        out.push(t);
                        proof {
                            if rest is Some {
                                assert(before + (seq![t] + rest.unwrap()) =~= out@ + rest.unwrap());
                            }
                        }
                    },
                    None => {
                        return Err(SegmentError::BadSilenceTime);
                    },
                }
            },
        }
        if e == stderr.len() {
            return Ok(out);
        }
        start = e + 1;
    }
    assert(out@ + Seq::<u64>::empty() =~= out@);
    Ok(out)
}

/// The duration, in microseconds, that the prober printed.
pub fn audio_file_duration(stdout: &[u8]) -> (r: Result<u64, SegmentError>)
    ensures
        match parsed_seconds(stdout@) {
            Some(d) => r == Ok::<u64, SegmentError>(d),
            None => r == Err::<u64, SegmentError>(SegmentError::BadDuration),
        },
{
    match parse_seconds(stdout) {
        Some(d) => Ok(d),
        None => Err(SegmentError::BadDuration),
    }
}

} // verus!
