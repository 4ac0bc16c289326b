//! Text shown by the desktop front end: play times and subtitle time
//! stamps, the status of a detection task, and the video files it opens.

use vstd::prelude::*;
use vstd::string::StrSliceExecFns;

use crate::gui::DetectionRunState;
use crate::text::{decimal, push_char, push_decimal};

verus! {

/// The decimal digits of `n`, with leading zeros up to `width` digits.
pub open spec fn padded(n: nat, width: nat) -> Seq<char> {
    let d = decimal(n);
    if d.len() >= width {
        d
    } else {
        Seq::new((width - d.len()) as nat, |i: int| '0') + d
    }
}

/// Appends the decimal digits of `n`, with leading zeros up to `width`
/// digits.
fn push_padded(s: &mut String, n: u64, width: usize)
    ensures
        final(s)@ == old(s)@ + padded(n as nat, width as nat),
{
    let mut digits = String::new();
    push_decimal(&mut digits, n);
    let len = digits.as_str().unicode_len();
    proof {
        assert(digits@ =~= decimal(n as nat));
    }
    let ghost start = s@;
    let mut k: usize = len;
    while k < width
        invariant
            len <= k <= width || (k == len && len >= width),
            len == decimal(n as nat).len(),
            s@ == start + Seq::new((k - len) as nat, |i: int| '0'),
        decreases width - k,
    {
        s.push('0');
        proof {
            assert(start + Seq::new((k + 1 - len) as nat, |i: int| '0') =~= (start + Seq::new((k - len) as nat, |i: int| '0')).push('0'));
        }
        k = k + 1;
    }
    let ghost zeros = s@;
    let mut i: usize = 0;
    while i < len
        invariant
            i <= len,
            len == digits@.len(),
            digits@ == decimal(n as nat),
            s@ == zeros + digits@.subrange(0, i as int),
        decreases len - i,
    {
        let c = digits.as_str().get_char(i);
        s.push(c);
        proof {
            assert(zeros + digits@.subrange(0, i + 1) =~= (zeros + digits@.subrange(0, i as int)).push(c));
        }
        i = i + 1;
    }
    proof {
        assert(digits@.subrange(0, len as int) =~= digits@);
        if len >= width {
            assert(Seq::new(0nat, |i: int| '0') + decimal(n as nat) =~= decimal(n as nat));
            assert(start + Seq::new((k - len) as nat, |i: int| '0') =~= start);
        }
        assert(s@ =~= start + padded(n as nat, width as nat));
    }
}

/// A play time of `total_secs` seconds as minutes and two-digit seconds,
/// such as `1:05`.
pub fn format_time(total_secs: u64) -> (s: String)
    ensures
        s@ == decimal((total_secs / 60) as nat) + seq![':'] + padded((total_secs % 60) as nat, 2),
{
    let mut s = String::new();
    push_decimal(&mut s, total_secs / 60);
    push_char(&mut s, ':');
    push_padded(&mut s, total_secs % 60, 2);
    proof {
        assert(s@ =~= decimal((total_secs / 60) as nat) + seq![':'] + padded((total_secs % 60) as nat, 2));
    }
    s
}

/// A play time of `total_secs` seconds as two-digit minutes and seconds,
/// such as `01:05`.
pub fn format_clock(total_secs: u64) -> (s: String)
    ensures
        s@ == padded((total_secs / 60) as nat, 2) + seq![':'] + padded((total_secs % 60) as nat, 2),
{
    let mut s = String::new();
    push_padded(&mut s, total_secs / 60, 2);
    push_char(&mut s, ':');
    push_padded(&mut s, total_secs % 60, 2);
    proof {
        assert(s@ =~= padded((total_secs / 60) as nat, 2) + seq![':'] + padded((total_secs % 60) as nat, 2));
    }
    s
}

/// The time stamp of a subtitle at `total_ms` milliseconds: hours only
/// when there are any, then minutes, two-digit seconds and three-digit
/// milliseconds, such as `1:02:03.004` or `2:03.004`.
pub open spec fn timestamp_spec(total_ms: nat) -> Seq<char> {
    let total_secs = total_ms / 1000;
    let hours = total_secs / 3600;
    let minutes = (total_secs / 60) % 60;
    let tail = seq![':'] + padded(total_secs % 60, 2) + seq!['.'] + padded(total_ms % 1000, 3);
    if hours > 0 {
        decimal(hours) + seq![':'] + padded(minutes, 2) + tail
    } else {
        decimal(minutes) + tail
    }
}

/// The time stamp of a subtitle at `total_ms` milliseconds.
pub fn format_timestamp(total_ms: u64) -> (s: String)
    ensures
        s@ == timestamp_spec(total_ms as nat),
{
    let total_secs = total_ms / 1000;
    let hours = total_secs / 3600;
    let minutes = (total_secs / 60) % 60;
    let mut s = String::new();
    if hours > 0 {
        push_decimal(&mut s, hours);
        push_char(&mut s, ':');
        push_padded(&mut s, minutes, 2);
    } else {
        push_decimal(&mut s, minutes);
    }
    push_char(&mut s, ':');
    push_padded(&mut s, total_secs % 60, 2);
    push_char(&mut s, '.');
    push_padded(&mut s, total_ms % 1000, 3);
    proof {
        let tail = seq![':'] + padded((total_secs % 60) as nat, 2) + seq!['.'] + padded((total_ms % 1000) as nat, 3);
        if hours > 0 {
            assert(s@ =~= decimal(hours as nat) + seq![':'] + padded(minutes as nat, 2) + tail);
        } else {
            assert(s@ =~= decimal(minutes as nat) + tail);
        }
    }
    s
}

/// A time of `total_ms` milliseconds as two-digit hours, minutes and
/// seconds and three-digit milliseconds, such as `00:01:02.003`.
pub open spec fn clock_spec(total_ms: nat) -> Seq<char> {
    let total_secs = total_ms / 1000;
    padded(total_secs / 3600, 2) + seq![':'] + padded((total_secs % 3600) / 60, 2) + seq![':'] + padded(total_secs % 60, 2)
        + seq!['.'] + padded(total_ms % 1000, 3)
}

fn push_clock(s: &mut String, total_ms: u64)
    ensures
        final(s)@ == old(s)@ + clock_spec(total_ms as nat),
{
    let total_secs = total_ms / 1000;
    push_padded(s, total_secs / 3600, 2);
    push_char(s, ':');
    push_padded(s, (total_secs % 3600) / 60, 2);
    push_char(s, ':');
    push_padded(s, total_secs % 60, 2);
    push_char(s, '.');
    push_padded(s, total_ms % 1000, 3);
    proof {
        assert(s@ =~= old(s)@ + clock_spec(total_ms as nat));
    }
}

/// The span of a subtitle from `start_ms` to `end_ms` milliseconds, such
/// as `00:00:01.000 - 00:00:02.500`.
pub fn format_time_range(start_ms: u64, end_ms: u64) -> (s: String)
    ensures
        s@ == clock_spec(start_ms as nat) + seq![' ', '-', ' '] + clock_spec(end_ms as nat),
{
    let mut s = String::new();
    push_clock(&mut s, start_ms);
    push_char(&mut s, ' ');
    push_char(&mut s, '-');
    push_char(&mut s, ' ');
    push_clock(&mut s, end_ms);
    proof {
        assert(s@ =~= clock_spec(start_ms as nat) + seq![' ', '-', ' '] + clock_spec(end_ms as nat));
    }
    s
}

/// The status of a detection task: done once its progress is complete,
/// else its run state.
pub fn task_status_text(run_state: DetectionRunState, completed: bool) -> (s: &'static str)
    ensures
        s@ == (if completed {
            "Done"@
        } else {
            match run_state {
                DetectionRunState::Idle => "Idle"@,
                DetectionRunState::Running => "Processing"@,
                DetectionRunState::Paused => "Paused"@,
            }
        }),
{
    if completed {
        "Done"
    } else {
        match run_state {
            DetectionRunState::Idle => "Idle",
            DetectionRunState::Running => "Processing",
            DetectionRunState::Paused => "Paused",
        }
    }
}

/// The file extensions of the videos the front end opens.
pub open spec fn video_extensions() -> Seq<Seq<char>> {
    seq!["mp4"@, "mov"@, "mkv"@, "webm"@, "avi"@, "m4v"@, "mpg"@, "mpeg"@, "ts"@]
}

/// The extensions of the videos the front end opens, in order.
pub fn supported_video_extensions() -> (exts: Vec<&'static str>)
    ensures
        exts@.len() == video_extensions().len(),
        forall|k: int| 0 <= k < exts@.len() ==> #[trigger] exts@[k]@ == video_extensions()[k],
{
    let mut exts: Vec<&'static str> = Vec::new();
    exts.push("mp4");
    exts.push("mov");
    exts.push("mkv");
    exts.push("webm");
    exts.push("avi");
    exts.push("m4v");
    exts.push("mpg");
    exts.push("mpeg");
    exts.push("ts");
    exts
}

/// A character with ASCII capitals made small.
pub open spec fn ascii_lower(c: char) -> char {
    if 'A' <= c && c <= 'Z' {
        ((c as u32) + 32) as char
    } else {
        c
    }
}

/// Two texts are equal up to the case of ASCII letters.
pub open spec fn eq_ignore_ascii_case(a: Seq<char>, b: Seq<char>) -> bool {
    a.len() == b.len() && forall|i: int| 0 <= i < a.len() ==> ascii_lower(#[trigger] a[i]) == ascii_lower(b[i])
}

fn lower(c: char) -> (r: char)
    ensures
        r == ascii_lower(c),
{
    if 'A' <= c && c <= 'Z' {
        ((c as u8) + 32) as char
    } else {
        c
    }
}

fn same_ignoring_ascii_case(a: &str, b: &str) -> (r: bool)
    ensures
        r == eq_ignore_ascii_case(a@, b@),
{
    let n = a.unicode_len();
    if n != b.unicode_len() {
        return false;
    }
    let mut i: usize = 0;
    while i < n
        invariant
            i <= n,
            n == a@.len(),
            n == b@.len(),
            forall|j: int| 0 <= j < i ==> ascii_lower(#[trigger] a@[j]) == ascii_lower(b@[j]),
        decreases n - i,
    {
        if lower(a.get_char(i)) != lower(b.get_char(i)) {
            return false;
        }
        i = i + 1;
    }
    true
}

/// A video file with the extension `extension` can be opened: it has one,
/// and it is one of `video_extensions` up to ASCII case.
pub fn is_supported_video_path(extension: Option<&str>) -> (ok: bool)
    ensures
        ok == (match extension {
            Some(e) => exists|k: int| 0 <= k < video_extensions().len() && eq_ignore_ascii_case(#[trigger] video_extensions()[k], e@),
            None => false,
        }),
{
    let ext = match extension {
        Some(e) => e,
        None => {
            return false;
        },
    };
    let allowed = supported_video_extensions();
    let mut k: usize = 0;
    while k < allowed.len()
        invariant
            extension == Some(ext),
            k <= allowed@.len(),
            allowed@.len() == video_extensions().len(),
            forall|j: int| 0 <= j < allowed@.len() ==> #[trigger] allowed@[j]@ == video_extensions()[j],
            forall|j: int| 0 <= j < k ==> !eq_ignore_ascii_case(#[trigger] video_extensions()[j], ext@),
        decreases allowed@.len() - k,
    {
        if same_ignoring_ascii_case(allowed[k], ext) {
            assert(allowed@[k as int]@ == video_extensions()[k as int]);
            assert(eq_ignore_ascii_case(video_extensions()[k as int], ext@));
            return true;
        }
        k = k + 1;
    }
    false
}

/// The list of extensions, each after a dot, joined by `, `.
pub open spec fn dotted_list(exts: Seq<Seq<char>>) -> Seq<char>
    decreases exts.len(),
{
    if exts.len() == 0 {
        Seq::empty()
    } else if exts.len() == 1 {
        seq!['.'] + exts[0]
    } else {
        dotted_list(exts.drop_last()) + seq![',', ' ', '.'] + exts.last()
    }
}

/// The sentence naming the supported formats: `Supported formats: ` and
/// the dotted list of the extensions.
pub fn supported_video_extensions_detail() -> (s: String)
    ensures
        s@ == "Supported formats: "@ + dotted_list(video_extensions()),
{
    let allowed = supported_video_extensions();
    let mut s = "Supported formats: ".to_owned();
    let ghost head = s@;
    let mut k: usize = 0;
    while k < allowed.len()
        invariant
            k <= allowed@.len(),
            allowed@.len() == video_extensions().len(),
            forall|j: int| 0 <= j < allowed@.len() ==> #[trigger] allowed@[j]@ == video_extensions()[j],
            s@ == head + dotted_list(video_extensions().subrange(0, k as int)),
        decreases allowed@.len() - k,
    {
        let ghost before = s@;
        if k > 0 {
            push_char(&mut s, ',');
            push_char(&mut s, ' ');
        }
        push_char(&mut s, '.');
        let ext = allowed[k];
        let ghost mid = s@;
        let n = ext.unicode_len();
        let mut i: usize = 0;
        while i < n
            invariant
                i <= n,
                n == ext@.len(),
                s@ == mid + ext@.subrange(0, i as int),
            decreases n - i,
        {
            let c = ext.get_char(i);
            s.push(c);
            proof {
                assert(mid + ext@.subrange(0, i + 1) =~= (mid + ext@.subrange(0, i as int)).push(c));
            }
            i = i + 1;
        }
        proof {
            assert(ext@.subrange(0, n as int) =~= ext@);
            assert(ext@ == video_extensions()[k as int]);
            let exts = video_extensions().subrange(0, k + 1);
            assert(exts.drop_last() =~= video_extensions().subrange(0, k as int));
            assert(exts.last() == video_extensions()[k as int]);
            if k == 0 {
                assert(s@ =~= head + dotted_list(exts));
            } else {
                assert(s@ =~= head + dotted_list(exts));
            }
        }
        k = k + 1;
    }
    proof {
        assert(video_extensions().subrange(0, allowed@.len() as int) =~= video_extensions());
    }
    s
}

} // verus!
