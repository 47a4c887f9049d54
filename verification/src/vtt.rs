//! VTT parsing: a document in, a [`Subtitle`] out.

use vstd::prelude::*;

use crate::charseq::{
    all_white, chars_of, copy_range, find_char, first_index, first_word, first_word_bounds,
    is_all_white, parse_u64, parse_u64_spec, split_fields, split_on, string_of, trim, trim_bounds,
};
use crate::subtitle::{
    cues_view, in_presentation_order, sort_by_span, sort_cues, sorting_orders_and_keeps_cues, Cue,
    CueView, Subtitle,
};

verus! {

/// What stops a document from being parsed.
#[derive(Debug)]
pub enum VttError {
    /// The first line is not a `WEBVTT` signature.
    MissingSignature,
    /// A timestamp on a cue's timing line does not parse; it carries the text.
    MalformedTimestamp(String),
    /// A cue ends before it starts; it carries the start, in milliseconds.
    NegativeDuration(u64),
}

/// What a [`VttError`] is, with its text as characters.
pub enum VttErrorView {
    MissingSignature,
    MalformedTimestamp(Seq<char>),
    NegativeDuration(u64),
}

impl View for VttError {
    type V = VttErrorView;

    open spec fn view(&self) -> VttErrorView {
        match self {
            VttError::MissingSignature => VttErrorView::MissingSignature,
            VttError::MalformedTimestamp(t) => VttErrorView::MalformedTimestamp(t@),
            VttError::NegativeDuration(start) => VttErrorView::NegativeDuration(*start),
        }
    }
}

/// The views of a list of lines.
pub open spec fn lines_view(lines: Seq<Vec<char>>) -> Seq<Seq<char>> {
    lines.map_values(|l: Vec<char>| l@)
}

/// A line without the carriage return it may end with.
pub open spec fn strip_cr(line: Seq<char>) -> Seq<char> {
    if line.len() > 0 && line.last() == '\r' {
        line.drop_last()
    } else {
        line
    }
}

/// The lines ended so far in `s`, and the one still open after them.
pub open spec fn split_lines_acc(s: Seq<char>) -> (Seq<Seq<char>>, Seq<char>)
    decreases s.len(),
{
    if s.len() == 0 {
        (Seq::empty(), Seq::empty())
    } else {
        let (done, cur) = split_lines_acc(s.drop_last());
        if s.last() == '\n' {
            (done.push(strip_cr(cur)), Seq::empty())
        } else {
            (done, cur.push(s.last()))
        }
    }
}

/// The lines of `s`, split at `\n` with a `\r` before it dropped; a final line
/// ending is optional, so it yields no empty last line.
pub open spec fn lines_of(s: Seq<char>) -> Seq<Seq<char>> {
    let (done, cur) = split_lines_acc(s);
    if cur.len() == 0 {
        done
    } else {
        done.push(cur)
    }
}

/// `s` without the byte order mark it may start with.
pub open spec fn strip_bom(s: Seq<char>) -> Seq<char> {
    if s.len() > 0 && s[0] == '\u{feff}' {
        s.drop_first()
    } else {
        s
    }
}

pub open spec fn signature() -> Seq<char> {
    seq!['W', 'E', 'B', 'V', 'T', 'T']
}

/// `WEBVTT`, alone or followed by a space or a tab and anything after it.
pub open spec fn is_signature_spec(line: Seq<char>) -> bool {
    &&& line.len() >= 6
    &&& line.take(6) == signature()
    &&& (line.len() == 6 || line[6] == ' ' || line[6] == '\t')
}

/// The keywords of blocks that are not cues.
pub open spec fn is_non_cue_keyword(word: Seq<char>) -> bool {
    ||| word == seq!['N', 'O', 'T', 'E']
    ||| word == seq!['S', 'T', 'Y', 'L', 'E']
    ||| word == seq!['R', 'E', 'G', 'I', 'O', 'N']
}

/// `-->` starts at `i` in `line`.
pub open spec fn arrow_at(line: Seq<char>, i: int) -> bool {
    0 <= i && i + 3 <= line.len() && line[i] == '-' && line[i + 1] == '-' && line[i + 2] == '>'
}

/// `line` holds a `-->`.
pub open spec fn has_arrow(line: Seq<char>) -> bool {
    exists|i: int| arrow_at(line, i)
}

/// The position of the first `-->` in `line`.
pub open spec fn first_arrow(line: Seq<char>) -> int {
    choose|i: int| arrow_at(line, i) && forall|j: int| 0 <= j < i ==> !arrow_at(line, j)
}

/// The milliseconds a `HH:MM:SS.mmm` or `MM:SS.mmm` timestamp stands for: hours of
/// any length, minutes and seconds below 60, exactly three characters of
/// milliseconds, each field read as an unsigned integer, and a total that fits in
/// a `u64`.
#[verifier::opaque]
pub open spec fn timestamp_spec(t: Seq<char>) -> Option<u64> {
    match first_index(t, '.') {
        None => None,
        Some(dot) => {
            let millis = t.skip(dot + 1);
            let fields = split_on(t.take(dot), ':');
            let hours = if fields.len() == 3 { parse_u64_spec(fields[0]) } else { Some(0u64) };
            let minutes = parse_u64_spec(fields[fields.len() - 2]);
            let seconds = parse_u64_spec(fields[fields.len() - 1]);
            let ms = parse_u64_spec(millis);
            if millis.len() != 3 || fields.len() < 2 || fields.len() > 3 || hours is None
                || minutes is None || seconds is None || ms is None {
                None
            } else if minutes->0 > 59 || seconds->0 > 59 {
                None
            } else {
                let total = hours->0 * 3_600_000 + minutes->0 * 60_000 + seconds->0 * 1_000
                    + ms->0;
                if total > u64::MAX {
                    None
                } else {
                    Some(total as u64)
                }
            }
        },
    }
}

/// The two timestamps of a timing line: the trimmed text before the first `-->`
/// and the first word after it.
#[verifier::opaque]
pub open spec fn timing_texts(line: Seq<char>) -> (Seq<char>, Seq<char>) {
    let arrow = first_arrow(line);
    let end_text = match first_word(line.skip(arrow + 3)) {
        Some(w) => w,
        None => Seq::empty(),
    };
    (trim(line.take(arrow)), end_text)
}

/// The span a timing line gives: both timestamps parse, the end is no earlier
/// than the start, and it fits in the milliseconds a [`Cue`] counts.
#[verifier::opaque]
pub open spec fn timing_spec(line: Seq<char>) -> Result<(u32, u32), VttErrorView> {
    let (start_text, end_text) = timing_texts(line);
    match timestamp_spec(start_text) {
        None => Err(VttErrorView::MalformedTimestamp(start_text)),
        Some(start) => match timestamp_spec(end_text) {
            None => Err(VttErrorView::MalformedTimestamp(end_text)),
            Some(end) => if end < start {
                Err(VttErrorView::NegativeDuration(start))
            } else if end > u32::MAX {
                Err(VttErrorView::MalformedTimestamp(end_text))
            } else {
                Ok((start as u32, end as u32))
            },
        },
    }
}

/// Lines joined with `\n`.
pub open spec fn join_lines(lines: Seq<Seq<char>>) -> Seq<char>
    decreases lines.len(),
{
    if lines.len() == 0 {
        Seq::empty()
    } else if lines.len() == 1 {
        lines[0]
    } else {
        join_lines(lines.drop_last()).push('\n') + lines.last()
    }
}

/// What one block of non-blank lines holds: nothing for a `NOTE`, `STYLE` or
/// `REGION` block or one without a timing line first or second; otherwise a cue
/// timed by that line, with the lines after it as its text.
#[verifier::opaque]
pub open spec fn block_spec(block: Seq<Seq<char>>) -> Result<Option<CueView>, VttErrorView> {
    if block.len() > 0 && first_word(block[0]) is Some && is_non_cue_keyword(
        first_word(block[0])->0,
    ) {
        Ok(None)
    } else {
        let timing = if block.len() >= 1 && has_arrow(block[0]) {
            Some(0int)
        } else if block.len() >= 2 && has_arrow(block[1]) {
            Some(1int)
        } else {
            None
        };
        match timing {
            None => Ok(None),
            Some(k) => match timing_spec(block[k]) {
                Err(e) => Err(e),
                Ok((start, end)) => Ok(
                    Some(CueView { start, end, text: join_lines(block.skip(k + 1)) }),
                ),
            },
        }
    }
}

/// The cues of the blocks `lines` close, in document order, and the block still
/// open after them; or the first error a closed block gives.
pub open spec fn scan_spec(lines: Seq<Seq<char>>) -> Result<
    (Seq<CueView>, Seq<Seq<char>>),
    VttErrorView,
>
    decreases lines.len(),
{
    if lines.len() == 0 {
        Ok((Seq::empty(), Seq::empty()))
    } else {
        match scan_spec(lines.drop_last()) {
            Err(e) => Err(e),
            Ok((cues, block)) => if all_white(lines.last()) {
                match block_spec(block) {
                    Err(e) => Err(e),
                    Ok(None) => Ok((cues, Seq::empty())),
                    Ok(Some(cue)) => Ok((cues.push(cue), Seq::empty())),
                }
            } else {
                Ok((cues, block.push(lines.last())))
            },
        }
    }
}

/// What a document parses to: its first line must be a signature, the blank
/// lines after it divide the rest into blocks, and the cues those hold come out
/// sorted by `(start, end)`.
pub open spec fn parse_spec(document: Seq<char>) -> Result<Seq<CueView>, VttErrorView> {
    let lines = lines_of(strip_bom(document));
    if lines.len() == 0 || !is_signature_spec(lines[0]) {
        Err(VttErrorView::MissingSignature)
    } else {
        match scan_spec(lines.skip(1).push(Seq::empty())) {
            Err(e) => Err(e),
            Ok((cues, _)) => Ok(sort_by_span(cues)),
        }
    }
}

/// The view of what [`parse`] returns.
pub open spec fn parse_result_view(r: Result<Subtitle, VttError>) -> Result<
    Seq<CueView>,
    VttErrorView,
> {
    match r {
        Ok(subtitle) => Ok(subtitle@),
        Err(e) => Err(e@),
    }
}

fn split_lines(s: &[char]) -> (lines: Vec<Vec<char>>)
    ensures
        lines_view(lines@) == lines_of(s@),
{
    let mut done: Vec<Vec<char>> = Vec::new();
    let mut cur: Vec<char> = Vec::new();
    for i in 0..s.len()
        invariant
            split_lines_acc(s@.take(i as int)) == (lines_view(done@), cur@),
    {
        proof {
            assert(s@.take(i + 1).drop_last() =~= s@.take(i as int));
        }
        let ghost before = lines_view(done@);
        if s[i] == '\n' {
            if cur.len() > 0 && cur[cur.len() - 1] == '\r' {
                cur.pop();
            }
            done.push(cur);
            cur = Vec::new();
            proof {
                assert(lines_view(done@) =~= before.push(done@.last()@));
            }
        } else {
            cur.push(s[i]);
        }
    }
    proof {
        assert(s@.take(s@.len() as int) =~= s@);
    }
    if cur.len() > 0 {
        let ghost before = lines_view(done@);
        done.push(cur);
        proof {
            assert(lines_view(done@) =~= before.push(done@.last()@));
        }
    }
    done
}

fn is_signature(line: &[char]) -> (b: bool)
    ensures
        b == is_signature_spec(line@),
{
    if line.len() < 6 {
        return false;
    }
    let matches_word = line[0] == 'W' && line[1] == 'E' && line[2] == 'B' && line[3] == 'V'
        && line[4] == 'T' && line[5] == 'T';
    proof {
        assert(matches_word == (line@.take(6) =~= signature()));
    }
    matches_word && (line.len() == 6 || line[6] == ' ' || line[6] == '\t')
}

fn find_arrow(line: &[char]) -> (r: Option<usize>)
    ensures
        match r {
            Some(i) => arrow_at(line@, i as int) && i == first_arrow(line@),
            None => !has_arrow(line@),
        },
{
    let mut i: usize = 0;
    while i < line.len() && line.len() - i >= 3
        invariant
            forall|j: int| 0 <= j < i ==> !arrow_at(line@, j),
        decreases line@.len() - i,
    {
        if line[i] == '-' && line[i + 1] == '-' && line[i + 2] == '>' {
            proof {
                let k = first_arrow(line@);
                assert(arrow_at(line@, i as int) && forall|j: int|
                    0 <= j < i ==> !arrow_at(line@, j));
                assert(arrow_at(line@, k) && forall|j: int| 0 <= j < k ==> !arrow_at(line@, j));
                assert(k == i) by {
                    if k < i {
                        assert(!arrow_at(line@, k));
                    } else if k > i {
                        assert(!arrow_at(line@, i as int));
                    }
                }
            }
            return Some(i);
        }
        i = i + 1;
    }
    None
}

fn timestamp_millis(t: &[char]) -> (r: Option<u64>)
    ensures
        r == timestamp_spec(t@),
{
    reveal(timestamp_spec);
    let dot = match find_char(t, '.') {
        None => return None,
        Some(dot) => dot,
    };
    let n = t.len();
    let millis = &t[dot + 1..n];
    let clock = &t[0..dot];
    proof {
        assert(millis@ =~= t@.skip(dot + 1));
        assert(clock@ =~= t@.take(dot as int));
    }
    let fields = split_fields(clock, ':');
    proof {
        assert(split_on(clock@, ':').len() == fields@.len());
    }
    if millis.len() != 3 || fields.len() < 2 || fields.len() > 3 {
        return None;
    }
    let n = fields.len();
    proof {
        assert(fields@[n - 2]@ == split_on(clock@, ':')[n - 2]);
        assert(fields@[n - 1]@ == split_on(clock@, ':')[n - 1]);
        assert(fields@[0]@ == split_on(clock@, ':')[0]);
    }
    let hours = if n == 3 { parse_u64(fields[0].as_slice()) } else { Some(0u64) };
    let minutes = parse_u64(fields[n - 2].as_slice());
    let seconds = parse_u64(fields[n - 1].as_slice());
    let ms = parse_u64(millis);
    match (hours, minutes, seconds, ms) {
        (Some(h), Some(m), Some(s), Some(ms)) => {
            if m > 59 || s > 59 {
                return None;
            }
            let clock_ms = m * 60_000 + s * 1_000;
            match h.checked_mul(3_600_000) {
                None => None,
                Some(h_ms) => match h_ms.checked_add(clock_ms) {
                    None => None,
                    Some(total) => total.checked_add(ms),
                },
            }
        },
        _ => None,
    }
}

/// Reads a `HH:MM:SS.mmm` or `MM:SS.mmm` timestamp as milliseconds.
pub fn parse_timestamp(timestamp: &str) -> (r: Result<u64, VttError>)
    ensures
        match r {
            Ok(ms) => timestamp_spec(timestamp@) == Some(ms),
            Err(e) => timestamp_spec(timestamp@) is None && e@ == VttErrorView::MalformedTimestamp(
                timestamp@,
            ),
        },
{
    let chars = chars_of(timestamp);
    match timestamp_millis(chars.as_slice()) {
        Some(ms) => Ok(ms),
        None => Err(VttError::MalformedTimestamp(string_of(chars.as_slice()))),
    }
}

#[verifier::spinoff_prover]
#[verifier::rlimit(80)]
fn split_timing(line: &[char]) -> (r: (Vec<char>, Vec<char>))
    requires
        has_arrow(line@),
    ensures
        (r.0@, r.1@) == timing_texts(line@),
{
    let arrow = match find_arrow(line) {
        Some(i) => i,
        None => {
            return (Vec::new(), Vec::new());
        },
    };
    let n = line.len();
    let before = copy_range(line, 0, arrow);
    let after = copy_range(line, arrow + 3, n);
    proof {
        assert(before@ =~= line@.take(arrow as int));
        assert(after@ =~= line@.skip(arrow + 3));
    }
    let (a, b) = trim_bounds(before.as_slice());
    let start_text = copy_range(before.as_slice(), a, b);
    let end_text = match first_word_bounds(after.as_slice()) {
        Some((c, d)) => copy_range(after.as_slice(), c, d),
        None => Vec::new(),
    };
    proof {
        assert(arrow == first_arrow(line@));
        assert(start_text@ == trim(line@.take(arrow as int)));
        assert((start_text@, end_text@) == timing_texts(line@)) by {
            reveal(timing_texts);
        }
    }
    (start_text, end_text)
}

#[verifier::rlimit(50)]
fn parse_timing(line: &[char]) -> (r: Result<(u32, u32), VttError>)
    requires
        has_arrow(line@),
    ensures
        match r {
            Ok(span) => timing_spec(line@) == Ok::<(u32, u32), VttErrorView>(span),
            Err(e) => timing_spec(line@) == Err::<(u32, u32), VttErrorView>(e@),
        },
{
    reveal(timing_spec);
    let (start_text, end_text) = split_timing(line);
    let ghost texts = timing_texts(line@);
    let start = match timestamp_millis(start_text.as_slice()) {
        None => return Err(VttError::MalformedTimestamp(string_of(start_text.as_slice()))),
        Some(ms) => ms,
    };
    let end = match timestamp_millis(end_text.as_slice()) {
        None => return Err(VttError::MalformedTimestamp(string_of(end_text.as_slice()))),
        Some(ms) => ms,
    };
    if end < start {
        return Err(VttError::NegativeDuration(start));
    }
    if end > u32::MAX as u64 {
        return Err(VttError::MalformedTimestamp(string_of(end_text.as_slice())));
    }
    Ok((start as u32, end as u32))
}

fn has_arrow_exec(line: &[char]) -> (b: bool)
    ensures
        b == has_arrow(line@),
{
    match find_arrow(line) {
        Some(_) => true,
        None => false,
    }
}

fn join_text(lines: &Vec<Vec<char>>, from: usize, to: usize) -> (text: String)
    requires
        from <= to <= lines@.len(),
    ensures
        text@ == join_lines(lines_view(lines@).subrange(from as int, to as int)),
{
    let ghost all = lines_view(lines@);
    let mut chars: Vec<char> = Vec::new();
    let mut i = from;
    while i < to
        invariant
            from <= i <= to <= lines@.len(),
            all == lines_view(lines@),
            chars@ == join_lines(all.subrange(from as int, i as int)),
        decreases to - i,
    {
        proof {
            assert(all.subrange(from as int, i + 1).drop_last() =~= all.subrange(from as int, i as int));
        }
        if i > from {
            chars.push('\n');
        }
        let line = &lines[i];
        let ghost before = chars@;
        for k in 0..line.len()
            invariant
                chars@ == before + line@.take(k as int),
        {
            chars.push(line[k]);
            proof {
                assert(chars@ =~= before + line@.take(k + 1));
            }
        }
        proof {
            assert(line@.take(line@.len() as int) =~= line@);
            if i == from {
                assert(chars@ =~= all.subrange(from as int, i + 1)[0]);
            }
        }
        i = i + 1;
    }
    string_of(chars.as_slice())
}

fn parse_block(lines: &Vec<Vec<char>>, from: usize, to: usize) -> (r: Result<Option<Cue>, VttError>)
    requires
        from <= to <= lines@.len(),
    ensures
        block_spec(lines_view(lines@).subrange(from as int, to as int)) == match r {
            Ok(Some(cue)) => Ok::<Option<CueView>, VttErrorView>(Some(cue@)),
            Ok(None) => Ok::<Option<CueView>, VttErrorView>(None),
            Err(e) => Err::<Option<CueView>, VttErrorView>(e@),
        },
{
    reveal(block_spec);
    let ghost block = lines_view(lines@).subrange(from as int, to as int);
    if from < to {
        let first = lines[from].as_slice();
        proof {
            assert(block[0] == first@);
        }
        match first_word_bounds(first) {
            Some((a, b)) => {
                let word = &first[a..b];
                proof {
                    assert(word@ =~= first@.subrange(a as int, b as int));
                }
                let keyword = (word.len() == 4 && word[0] == 'N' && word[1] == 'O' && word[2] == 'T'
                    && word[3] == 'E') || (word.len() == 5 && word[0] == 'S' && word[1] == 'T'
                    && word[2] == 'Y' && word[3] == 'L' && word[4] == 'E') || (word.len() == 6
                    && word[0] == 'R' && word[1] == 'E' && word[2] == 'G' && word[3] == 'I'
                    && word[4] == 'O' && word[5] == 'N');
                proof {
                    assert(keyword == is_non_cue_keyword(word@)) by {
                        assert(word@ =~= seq!['N', 'O', 'T', 'E'] <== (word.len() == 4 && word[0]
                            == 'N' && word[1] == 'O' && word[2] == 'T' && word[3] == 'E'));
                        assert(word@ =~= seq!['S', 'T', 'Y', 'L', 'E'] <== (word.len() == 5
                            && word[0] == 'S' && word[1] == 'T' && word[2] == 'Y' && word[3] == 'L'
                            && word[4] == 'E'));
                        assert(word@ =~= seq!['R', 'E', 'G', 'I', 'O', 'N'] <== (word.len() == 6
                            && word[0] == 'R' && word[1] == 'E' && word[2] == 'G' && word[3] == 'I'
                            && word[4] == 'O' && word[5] == 'N'));
                    }
                }
                if keyword {
                    return Ok(None);
                }
            },
            None => {},
        }
    }
    let k: usize = if from < to && has_arrow_exec(lines[from].as_slice()) {
        0
    } else if to - from >= 2 && has_arrow_exec(lines[from + 1].as_slice()) {
        1
    } else {
        return Ok(None);
    };
    proof {
        assert(block[k as int] == lines@[from + k]@);
    }
    let (start, end) = match parse_timing(lines[from + k].as_slice()) {
        Ok(span) => span,
        Err(e) => return Err(e),
    };
    let text = join_text(lines, from + k + 1, to);
    proof {
        assert(block.skip(k + 1) =~= lines_view(lines@).subrange(from + k + 1, to as int));
    }
    Ok(Some(Cue { start, end, text }))
}

proof fn lemma_scan_error_persists(lines: Seq<Seq<char>>, i: int)
    requires
        0 <= i <= lines.len(),
        scan_spec(lines.take(i)) is Err,
    ensures
        scan_spec(lines) == scan_spec(lines.take(i)),
    decreases lines.len() - i,
{
    if i < lines.len() {
        assert(lines.take(i + 1).drop_last() =~= lines.take(i));
        lemma_scan_error_persists(lines, i + 1);
    } else {
        assert(lines.take(i) =~= lines);
    }
}

/// Parses a VTT document into a [`Subtitle`].
///
/// Everything VTT carries beyond timing and text is discarded: cue identifiers,
/// cue settings, `STYLE` and `REGION` blocks, `NOTE` comments, and the header's
/// metadata. Cue text is kept verbatim, inline markup included. A document that
/// would otherwise drop captions is rejected outright.
pub fn parse(document: &str) -> (r: Result<Subtitle, VttError>)
    ensures
        parse_result_view(r) == parse_spec(document@),
{
    let chars = chars_of(document);
    let skip: usize = if chars.len() > 0 && chars[0] == '\u{feff}' { 1 } else { 0 };
    let body = &chars.as_slice()[skip..chars.len()];
    proof {
        assert(body@ =~= strip_bom(document@));
    }
    let lines = split_lines(body);
    let ghost all = lines_view(lines@);
    if lines.len() == 0 || !is_signature(lines[0].as_slice()) {
        return Err(VttError::MissingSignature);
    }
    // The lines after the signature, with a blank one appended to close the last
    // block.
    let ghost rest = all.skip(1).push(Seq::<char>::empty());
    let mut cues: Vec<Cue> = Vec::new();
    let mut from: usize = 1;
    let mut i: usize = 1;
    proof {
        assert(rest.take(0) =~= Seq::<Seq<char>>::empty());
        assert(all.subrange(1, 1) =~= Seq::<Seq<char>>::empty());
        assert(cues_view(cues@) =~= Seq::<CueView>::empty());
    }
    while i < lines.len()
        invariant
            1 <= from <= i <= lines@.len(),
            all == lines_view(lines@),
            rest == all.skip(1).push(Seq::<char>::empty()),
            all == lines_of(strip_bom(document@)),
            all.len() > 0 && is_signature_spec(all[0]),
            scan_spec(rest.take(i - 1)) == Ok::<(Seq<CueView>, Seq<Seq<char>>), VttErrorView>(
                (cues_view(cues@), all.subrange(from as int, i as int)),
            ),
        decreases lines@.len() - i,
    {
        proof {
            assert(rest.take(i as int).drop_last() =~= rest.take(i - 1));
            assert(rest[i - 1] == all[i as int]);
        }
        if is_all_white(lines[i].as_slice()) {
            match parse_block(&lines, from, i) {
                Err(e) => {
                    proof {
                        assert(all_white(rest.take(i as int).last()));
                        assert(scan_spec(rest.take(i as int)) == Err::<
                            (Seq<CueView>, Seq<Seq<char>>),
                            VttErrorView,
                        >(e@));
                        lemma_scan_error_persists(rest, i as int);
                    }
                    return Err(e);
                },
                Ok(None) => {},
                Ok(Some(cue)) => {
                    let ghost before = cues_view(cues@);
                    cues.push(cue);
                    proof {
                        assert(cues_view(cues@) =~= before.push(cues@.last()@));
                    }
                },
            }
            from = i + 1;
            proof {
                assert(all.subrange(from as int, i + 1) =~= Seq::<Seq<char>>::empty());
            }
        } else {
            proof {
                assert(all.subrange(from as int, i + 1) =~= all.subrange(from as int, i as int).push(
                    all[i as int],
                ));
            }
        }
        i = i + 1;
    }
    // The appended blank line closes the last block.
    proof {
        let n = lines@.len() as int;
        assert(rest.take(n).drop_last() =~= rest.take(n - 1));
        assert(rest.take(n) =~= rest);
        assert(rest.drop_last() =~= rest.take(n - 1));
        assert(all_white(rest.last()));
    }
    match parse_block(&lines, from, lines.len()) {
        Err(e) => {
            proof {
                assert(block_spec(all.subrange(from as int, all.len() as int)) == Err::<
                    Option<CueView>,
                    VttErrorView,
                >(e@));
                assert(scan_spec(rest) == Err::<(Seq<CueView>, Seq<Seq<char>>), VttErrorView>(
                    e@,
                ));
                assert(all == lines_of(strip_bom(document@)));
            }
            return Err(e);
        },
        Ok(None) => {},
        Ok(Some(cue)) => {
            let ghost before = cues_view(cues@);
            cues.push(cue);
            proof {
                assert(cues_view(cues@) =~= before.push(cues@.last()@));
            }
        },
    }
    let sorted = sort_cues(&cues);
    Ok(Subtitle { cues: sorted })
}

/// Whatever document it reads, a successful parse yields its cues in
/// presentation order, by start and then by end.
pub proof fn parsed_cues_are_in_presentation_order(document: Seq<char>)
    ensures
        parse_spec(document) matches Ok(cues) ==> in_presentation_order(cues),
{
    let lines = lines_of(strip_bom(document));
    if lines.len() > 0 && is_signature_spec(lines[0]) {
        if let Ok((cues, _)) = scan_spec(lines.skip(1).push(Seq::empty())) {
            sorting_orders_and_keeps_cues(cues);
        }
    }
}

} // verus!
