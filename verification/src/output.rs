//! Text output formats for structured data.
//!
//! These are objects that say how something about an archive is to be
//! shown, and the text of the lines that they show.

use vstd::prelude::*;
use vstd::string::StrSliceExecFns;
use vstd::string::StringExecFns;

verus! {

/// The character of one decimal digit.
pub open spec fn digit_char(digit: int) -> char {
    seq!['0', '1', '2', '3', '4', '5', '6', '7', '8', '9'][digit]
}

/// `n` in decimal digits, without leading zeros.
pub open spec fn decimal(n: nat) -> Seq<char>
    decreases n,
{
    if n < 10 {
        seq![digit_char(n as int)]
    } else {
        decimal(n / 10).push(digit_char((n % 10) as int))
    }
}

/// `n` in decimal digits, after a minus sign if it is negative.
pub open spec fn signed_decimal(n: int) -> Seq<char> {
    if n < 0 {
        seq!['-'] + decimal((-n) as nat)
    } else {
        decimal(n as nat)
    }
}

/// `count` spaces.
pub open spec fn spaces(count: nat) -> Seq<char> {
    Seq::new(count, |i: int| ' ')
}

/// `text` with spaces after it up to `width` characters: as it is if it is
/// that long already.
pub open spec fn padded_right(text: Seq<char>, width: nat) -> Seq<char> {
    if text.len() >= width {
        text
    } else {
        text + spaces((width - text.len()) as nat)
    }
}

/// `text` with spaces before it up to `width` characters: as it is if it is
/// that long already.
pub open spec fn padded_left(text: Seq<char>, width: nat) -> Seq<char> {
    if text.len() >= width {
        text
    } else {
        spaces((width - text.len()) as nat) + text
    }
}

/// How long a version took, as it is shown: the seconds and an `s`, or
/// nothing for a version that has not ended.
pub open spec fn duration_text(seconds: Option<i64>) -> Seq<char> {
    match seconds {
        Some(s) => signed_decimal(s as int).push('s'),
        None => Seq::empty(),
    }
}

/// Whether a version is complete, as it is shown.
pub open spec fn completion_text(is_closed: bool) -> Seq<char> {
    if is_closed {
        "complete"@
    } else {
        "incomplete"@
    }
}

/// The line that is shown of one version: its name in 26 columns, whether
/// it is complete in 10, the time at which it started, and how long it took
/// in 7; and, where sizes are shown, its size on disk in millions of bytes in
/// 8 columns, and `MB`.
pub open spec fn version_line(
    show_sizes: bool,
    band_id: Seq<char>,
    is_closed: bool,
    start_time: Seq<char>,
    duration: Option<i64>,
    disk_bytes: u64,
) -> Seq<char> {
    let line = padded_right(band_id, 26) + seq![' '] + padded_right(completion_text(is_closed), 10)
        + seq![' '] + start_time + seq![' '] + padded_left(duration_text(duration), 7);
    if show_sizes {
        line + seq![' '] + padded_left(decimal((disk_bytes / 1000000) as nat), 8) + "MB"@
    } else {
        line
    }
}

/// The text of one decimal digit.
fn digit_text(digit: u64) -> (text: &'static str)
    requires
        digit < 10,
    ensures
        text@ == seq![digit_char(digit as int)],
{
    proof {
        reveal_strlit("0");
        reveal_strlit("1");
        reveal_strlit("2");
        reveal_strlit("3");
        reveal_strlit("4");
        reveal_strlit("5");
        reveal_strlit("6");
        reveal_strlit("7");
        reveal_strlit("8");
        reveal_strlit("9");
    }
    let text = match digit {
        0 => "0",
        1 => "1",
        2 => "2",
        3 => "3",
        4 => "4",
        5 => "5",
        6 => "6",
        7 => "7",
        8 => "8",
        _ => "9",
    };
    assert(text@ =~= seq![digit_char(digit as int)]);
    text
}

/// Writes `n` in decimal digits at the end of `out`.
pub fn push_decimal(out: &mut String, n: u64)
    ensures
        final(out)@ == old(out)@ + decimal(n as nat),
    decreases n,
{
    if n >= 10 {
        push_decimal(out, n / 10);
    }
    out.append(digit_text(n % 10));
    assert(out@ =~= old(out)@ + decimal(n as nat));
}

/// Writes `count` spaces at the end of `out`.
fn push_spaces(out: &mut String, count: usize)
    ensures
        final(out)@ == old(out)@ + spaces(count as nat),
{
    let mut done: usize = 0;
    proof {
        reveal_strlit(" ");
    }
    assert(out@ =~= old(out)@ + spaces(0));
    while done < count
        invariant
            done <= count,
            out@ == old(out)@ + spaces(done as nat),
            " "@ == seq![' '],
        decreases count - done,
    {
        out.append(" ");
        done += 1;
        assert(out@ =~= old(out)@ + spaces(done as nat));
    }
}

/// Writes `text` at the end of `out`, with spaces before or after it up to
/// `width` characters.
fn push_padded(out: &mut String, text: &str, width: usize, left: bool)
    ensures
        final(out)@ == old(out)@ + if left {
            padded_left(text@, width as nat)
        } else {
            padded_right(text@, width as nat)
        },
{
    let len = text.unicode_len();
    let fill = if len >= width {
        0
    } else {
        width - len
    };
    if left {
        push_spaces(out, fill);
        out.append(text);
        assert(out@ =~= old(out)@ + padded_left(text@, width as nat));
    } else {
        out.append(text);
        push_spaces(out, fill);
        assert(out@ =~= old(out)@ + padded_right(text@, width as nat));
    }
}

/// How long a version took, as it is shown.
pub fn format_duration(seconds: Option<i64>) -> (text: String)
    ensures
        text@ == duration_text(seconds),
{
    let mut text = String::new();
    match seconds {
        None => {},
        Some(s) => {
            proof {
                reveal_strlit("-");
                reveal_strlit("s");
            }
            if s < 0 {
                text.append("-");
                // The magnitude of the least value does not fit its own type.
                let magnitude: u64 = (-(s + 1)) as u64 + 1;
                push_decimal(&mut text, magnitude);
            } else {
                push_decimal(&mut text, s as u64);
            }
            text.append("s");
            assert(text@ =~= duration_text(seconds));
        },
    }
    text
}

/// Show something about an archive of type `A`.
pub trait ShowArchive<A> {
    /// Why the archive could not be shown.
    type Failure;

    /// Shows what this object is for of `archive`.
    fn show_archive(&self, archive: &A) -> Result<(), Self::Failure>;
}

/// Lists the versions of an archive by their names alone.
#[derive(Debug, Default)]
pub struct ShortVersionList {}

/// Lists the versions of an archive with their state and times.
#[derive(Debug, Default)]
pub struct VerboseVersionList {
    show_sizes: bool,
}

impl VerboseVersionList {
    /// True if the size of each version on disk is to be shown.
    pub closed spec fn sizes_shown(&self) -> bool {
        self.show_sizes
    }

    /// Control whether to show the size of version disk usage.
    ///
    /// Setting this requires walking the band directories which takes some extra time.
    pub fn show_sizes(self, show_sizes: bool) -> (list: VerboseVersionList)
        ensures
            list.sizes_shown() == show_sizes,
    {
        VerboseVersionList { show_sizes }
    }

    /// True if the size of each version on disk is to be shown.
    pub fn shows_sizes(&self) -> (shown: bool)
        ensures
            shown == self.sizes_shown(),
    {
        self.show_sizes
    }

    /// The line that is shown of one version: its name, whether it is
    /// complete, the time at which it started as text, how many seconds it
    /// took if it has ended, and, where sizes are shown, its size on disk.
    pub fn format_version(
        &self,
        band_id: &str,
        is_closed: bool,
        start_time: &str,
        duration: Option<i64>,
        disk_bytes: u64,
    ) -> (line: String)
        ensures
            line@ == version_line(
                self.sizes_shown(),
                band_id@,
                is_closed,
                start_time@,
                duration,
                disk_bytes,
            ),
    {
        let is_complete_str = if is_closed {
            "complete"
        } else {
            "incomplete"
        };
        let duration_str = format_duration(duration);
        proof {
            reveal_strlit(" ");
        }
        let mut line = String::new();
        push_padded(&mut line, band_id, 26, false);
        line.append(" ");
        push_padded(&mut line, is_complete_str, 10, false);
        line.append(" ");
        line.append(start_time);
        line.append(" ");
        push_padded(&mut line, duration_str.as_str(), 7, true);
        let ghost base = line@;
        assert(base =~= padded_right(band_id@, 26) + seq![' '] + padded_right(
            completion_text(is_closed),
            10,
        ) + seq![' '] + start_time@ + seq![' '] + padded_left(duration_text(duration), 7));
        if self.show_sizes {
            let mut megabytes = String::new();
            push_decimal(&mut megabytes, disk_bytes / 1000000);
            assert(megabytes@ =~= decimal((disk_bytes / 1000000) as nat));
            line.append(" ");
            push_padded(&mut line, megabytes.as_str(), 8, true);
            line.append("MB");
            assert(line@ =~= base + seq![' '] + padded_left(
                decimal((disk_bytes / 1000000) as nat),
                8,
            ) + "MB"@);
        }
        line
    }
}

/// Shows every entry of the index of one version.
#[derive(Debug)]
pub struct IndexDump {
    band_id: String,
}

impl View for IndexDump {
    type V = Seq<char>;

    /// The name of the version whose index is shown.
    closed spec fn view(&self) -> Seq<char> {
        self.band_id@
    }
}

impl IndexDump {
    /// A dump of the index of the version called `band_id`.
    pub fn new(band_id: &str) -> (dump: Self)
        ensures
            dump@ == band_id@,
    {
        Self { band_id: String::from_str(band_id) }
    }

    /// The name of the version whose index is shown.
    pub fn band_id(&self) -> (band_id: &str)
        ensures
            band_id@ == self@,
    {
        self.band_id.as_str()
    }
}

} // verus!
