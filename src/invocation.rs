//! The command lines of the transcoder and the prober, and the names of the
//! output segments.

use vstd::prelude::*;

use crate::error::{SegmentError, SegmentationError};
use crate::timing::{push_seconds, seconds_chars};

verus! {

/// The last place of `c` in `s`, or -1.
pub open spec fn last_index_of(s: Seq<char>, c: char) -> int
    decreases s.len(),
{
    if s.len() == 0 {
        -1
    } else if s.last() == c {
        s.len() - 1
    } else {
        last_index_of(s.drop_last(), c)
    }
}

/// A path without trailing slashes and trailing `/.` components, which name
/// the directory before them.
pub open spec fn without_trailing_slashes(s: Seq<char>) -> Seq<char>
    decreases s.len(),
{
    if s.len() > 0 && s.last() == '/' {
        without_trailing_slashes(s.drop_last())
    } else if s.len() >= 2 && s.last() == '.' && s[s.len() - 2] == '/' {
        without_trailing_slashes(s.drop_last())
    } else {
        s
    }
}

/// The last component of a `/`-separated path, trailing slashes and `/.`
/// aside; `None` when it is empty, `.` or `..`.
pub open spec fn base_name(path: Seq<char>) -> Option<Seq<char>> {
    let t = without_trailing_slashes(path);
    let name = t.skip(last_index_of(t, '/') + 1);
    if name.len() == 0 || name == seq!['.'] || name == seq!['.', '.'] {
        None
    } else {
        Some(name)
    }
}

/// A file name without its extension: the part before its last `.`, unless
/// that `.` opens the name.
pub open spec fn stem_of(name: Seq<char>) -> Seq<char> {
    let i = last_index_of(name, '.');
    if i > 0 {
        name.take(i)
    } else {
        name
    }
}

pub open spec fn string_view(s: Option<String>) -> Option<Seq<char>> {
    match s {
        Some(v) => Some(v@),
        None => None,
    }
}

proof fn lemma_last_index_bounds(s: Seq<char>, c: char)
    ensures
        -1 <= last_index_of(s, c) < s.len(),
        last_index_of(s, c) >= 0 ==> s[last_index_of(s, c)] == c,
    decreases s.len(),
{
    if s.len() > 0 && s.last() != c {
        lemma_last_index_bounds(s.drop_last(), c);
        let i = last_index_of(s.drop_last(), c);
        if i >= 0 {
            assert(s.drop_last()[i] == s[i]);
        }
    }
}

/// The last place of `c` in `s[..end]`.
fn last_index(s: &str, end: usize, c: char) -> (r: Option<usize>)
    requires
        end <= s@.len(),
    ensures
        match r {
            Some(i) => last_index_of(s@.take(end as int), c) == i && i < end,
            None => last_index_of(s@.take(end as int), c) == -1,
        },
{
    let mut i = end;
    while i > 0 && s.get_char(i - 1) != c
        invariant
            i <= end <= s@.len(),
            last_index_of(s@.take(end as int), c) == last_index_of(s@.take(i as int), c),
        decreases i,
    {
        assert(s@.take(i as int).drop_last() =~= s@.take(i - 1));
        i = i - 1;
    }
    if i == 0 {
        assert(s@.take(0) =~= Seq::<char>::empty());
        None
    } else {
        proof {
            lemma_last_index_bounds(s@.take(i as int), c);
        }
        Some(i - 1)
    }
}

/// The file name of a `/`-separated path: its last component.
pub fn file_name_of(path: &str) -> (r: Option<String>)
    ensures
        string_view(r) == base_name(path@),
{
    let len = path.unicode_len();
    let mut end = len;
    assert(path@.take(len as int) =~= path@);
    while end > 0 && (path.get_char(end - 1) == '/' || (end >= 2 && path.get_char(end - 1) == '.'
        && path.get_char(end - 2) == '/'))
        invariant
            end <= path@.len(),
            without_trailing_slashes(path@) == without_trailing_slashes(path@.take(end as int)),
        decreases end,
    {
        assert(path@.take(end as int).drop_last() =~= path@.take(end - 1));
        end = end - 1;
    }
    let ghost t = path@.take(end as int);
    if end > 0 {
        assert(t.last() == path@[end - 1]);
    }
    if end >= 2 {
        assert(t[t.len() - 2] == path@[end - 2]);
    }
    assert(without_trailing_slashes(t) == t);
    let from = match last_index(path, end, '/') {
        Some(i) => i + 1,
        None => 0,
    };
    proof {
        lemma_last_index_bounds(t, '/');
    }
    let name = path.substring_char(from, end);
    assert(name@ =~= t.skip(last_index_of(t, '/') + 1));
    let n = end - from;
    if n == 0 {
        return None;
    }
    if n <= 2 && name.get_char(0) == '.' && (n == 1 || name.get_char(1) == '.') {
        assert(name@ =~= seq!['.'] || name@ =~= seq!['.', '.']);
        return None;
    }
    proof {
        if name@ == seq!['.'] {
            assert(name@[0] == '.');
        }
        if name@ == seq!['.', '.'] {
            assert(name@[0] == '.' && name@[1] == '.');
        }
    }
    Some(name.to_owned())
}

/// A file name without its extension.
pub fn file_stem_of(name: &str) -> (r: String)
    ensures
        r@ == stem_of(name@),
{
    let len = name.unicode_len();
    assert(name@.take(len as int) =~= name@);
    match last_index(name, len, '.') {
        Some(i) => if i > 0 {
            name.substring_char(0, i).to_owned()
        } else {
            name.to_owned()
        },
        None => name.to_owned(),
    }
}

/// The file name of an input path, for progress records.
pub fn display_name(input_filename: &str) -> (r: Result<String, SegmentationError>)
    ensures
        match base_name(input_filename@) {
            Some(n) => r matches Ok(s) && s@ == n,
            None => r matches Err(e) && e.path@ == input_filename@ && e.cause
                == SegmentError::InvalidInputName,
        },
{
    match file_name_of(input_filename) {
        Some(n) => Ok(n),
        None => Err(SegmentationError::new(input_filename, SegmentError::InvalidInputName)),
    }
}

/// The output naming pattern for an input: in `output_folder`, the input's
/// stem, `_part_`, a four-digit ordinal, `.mp3`.
pub open spec fn output_pattern_chars(output_folder: Seq<char>, stem: Seq<char>) -> Seq<char> {
    output_folder + "/"@ + stem + "_part_%04d.mp3"@
}

/// The transcoder's output path template for the segments of an input.
pub fn output_pattern(input_filename: &str, output_folder: &str) -> (r: Result<
    String,
    SegmentationError,
>)
    ensures
        match base_name(input_filename@) {
            Some(n) => r matches Ok(s) && s@ == output_pattern_chars(output_folder@, stem_of(n)),
            None => r matches Err(e) && e.path@ == input_filename@ && e.cause
                == SegmentError::InvalidInputName,
        },
{
    let name = match file_name_of(input_filename) {
        Some(n) => n,
        None => return Err(SegmentationError::new(input_filename, SegmentError::InvalidInputName)),
    };
    let stem = file_stem_of(name.as_str());
    let mut out = output_folder.to_owned();
    out.append("/");
    out.append(stem.as_str());
    out.append("_part_%04d.mp3");
    Ok(out)
}

/// Times as decimal seconds, separated by commas.
pub open spec fn joined_seconds(ts: Seq<u64>) -> Seq<char>
    decreases ts.len(),
{
    if ts.len() == 0 {
        seq![]
    } else if ts.len() == 1 {
        seconds_chars(ts[0] as nat)
    } else {
        joined_seconds(ts.drop_last()) + seq![','] + seconds_chars(ts.last() as nat)
    }
}

/// The transcoder's list of cut times: decimal seconds, comma-separated.
pub fn segment_times_arg(cuts: &Vec<u64>) -> (r: String)
    ensures
        r@ == joined_seconds(cuts@),
{
    let mut out = String::new();
    let mut i: usize = 0;
    assert(cuts@.take(0) =~= Seq::<u64>::empty());
    while i < cuts.len()
        invariant
            i <= cuts@.len(),
            out@ == joined_seconds(cuts@.take(i as int)),
        decreases cuts@.len() - i,
    {
        let ghost before = out@;
        proof {
            reveal_strlit(",");
        }
        if i > 0 {
            out.append(",");
        }
        push_seconds(&mut out, cuts[i]);
        let ghost next = cuts@.take(i + 1);
        assert(next.drop_last() =~= cuts@.take(i as int));
        assert(next.last() == cuts@[i as int]);
        if i > 0 {
            assert(out@ =~= before + seq![','] + seconds_chars(cuts@[i as int] as nat));
        } else {
            assert(out@ =~= seconds_chars(cuts@[i as int] as nat));
        }
        i = i + 1;
    }
    assert(cuts@.take(i as int) =~= cuts@);
    out
}

pub open spec fn views(args: Seq<String>) -> Seq<Seq<char>> {
    args.map_values(|a: String| a@)
}

/// The silence-detection filter for silences of at least `min_silence`
/// microseconds, quieter than -30 dB.
pub open spec fn silence_filter(min_silence: u64) -> Seq<char> {
    "silencedetect=n=-30dB:d="@ + seconds_chars(min_silence as nat)
}

/// The transcoder's arguments for detecting silences in `input_filename`:
/// the detection filter, with the decoded output discarded.
pub fn silence_detect_args(input_filename: &str, min_silence: u64) -> (r: Vec<String>)
    ensures
        views(r@) == seq![
            "-i"@,
            input_filename@,
            "-af"@,
            silence_filter(min_silence),
            "-f"@,
            "null"@,
            "-"@,
        ],
{
    let mut filter = "silencedetect=n=-30dB:d=".to_owned();
    push_seconds(&mut filter, min_silence);
    let r = vec![
        "-i".to_owned(),
        input_filename.to_owned(),
        "-af".to_owned(),
        filter,
        "-f".to_owned(),
        "null".to_owned(),
        "-".to_owned(),
    ];
    assert(views(r@) =~= seq![
        "-i"@,
        input_filename@,
        "-af"@,
        silence_filter(min_silence),
        "-f"@,
        "null"@,
        "-"@,
    ]);
    r
}

/// The prober's arguments for printing the duration of `input_filename` as
/// bare seconds.
pub fn duration_probe_args(input_filename: &str) -> (r: Vec<String>)
    ensures
        views(r@) == seq![
            "-v"@,
            "error"@,
            "-show_entries"@,
            "format=duration"@,
            "-of"@,
            "default=noprint_wrappers=1:nokey=1"@,
            input_filename@,
        ],
{
    let r = vec![
        "-v".to_owned(),
        "error".to_owned(),
        "-show_entries".to_owned(),
        "format=duration".to_owned(),
        "-of".to_owned(),
        "default=noprint_wrappers=1:nokey=1".to_owned(),
        input_filename.to_owned(),
    ];
    assert(views(r@) =~= seq![
        "-v"@,
        "error"@,
        "-show_entries"@,
        "format=duration"@,
        "-of"@,
        "default=noprint_wrappers=1:nokey=1"@,
        input_filename@,
    ]);
    r
}

/// The transcoder's arguments for cutting `input_filename` at `cuts` into
/// files named by `pattern`, copying the streams as they are.
pub fn segment_args(input_filename: &str, cuts: &Vec<u64>, pattern: &str) -> (r: Vec<String>)
    ensures
        views(r@) == seq![
            "-i"@,
            input_filename@,
            "-f"@,
            "segment"@,
            "-segment_times"@,
            joined_seconds(cuts@),
            "-c"@,
            "copy"@,
            pattern@,
        ],
{
    let r = vec![
        "-i".to_owned(),
        input_filename.to_owned(),
        "-f".to_owned(),
        "segment".to_owned(),
        "-segment_times".to_owned(),
        segment_times_arg(cuts),
        "-c".to_owned(),
        "copy".to_owned(),
        pattern.to_owned(),
    ];
    assert(views(r@) =~= seq![
        "-i"@,
        input_filename@,
        "-f"@,
        "segment"@,
        "-segment_times"@,
        joined_seconds(cuts@),
        "-c"@,
        "copy"@,
        pattern@,
    ]);
    r
}

} // verus!
